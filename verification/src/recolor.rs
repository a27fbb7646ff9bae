//! What highlighting and streams change: what goes into their output are SGR
//! sequences, and what is taken out are SGR sequences. Of controls that are too
//! long to wait for, some bytes are made harmless.

use vstd::prelude::*;

use crate::arrival::{
    fit, lemma_fit_concat, lemma_fit_cut, lemma_well_formed_whole, well_formed,
};
use crate::bytes::{
    lemma_subsequence_concat, lemma_subsequence_empty, lemma_subsequence_self, subsequence,
};
use crate::controls::{
    cancels, control_at, control_end, csi_end, csi_intro, disables_paste, joined, layout_sequence,
    lemma_control_end, screen_command, text_of, text_unit_end, tokens_join_to_input, tokens_of,
    visible, TokenView,
};
use crate::emit::{ended, highlighted, pen, started, wanted, Inks, Pen};
use crate::escapes::{
    chain_root, flushable_len, lemma_open_control, lemma_scan_at, lemma_short_scan,
    lemma_stateful_from, or_all, scan_at, stateful_from, MAX_INCOMPLETE_NON_STRING_ESCAPE_BYTES,
    Scan,
};
use crate::highlight::{
    highlighted_with, highlighting, live_styles_keep_characters_whole, progress, styles_possible,
    HighlighterView, MatchIssue, Progress,
};
use crate::paint::whole_characters;
use crate::prompt_cuts::{at_cuts, lemma_echo_cut, lemma_no_cut_inside, lemma_plan_cuts};
use crate::prompt_echo::{
    echo_len, echo_up_to_lf, is_sgr, lemma_echo_up_to_cr, prompt_line, sgr_ranges, shown_at,
    shown_break,
};
use crate::prompt_sgr::{
    echo_reset, line_plan, plan_from, ranges_within, replanned, sgr_plan, without_prompt_colors,
    ResetMode, SgrPlan,
};
use crate::sanitize::{
    lemma_neutralized_chain_len, lemma_oversized_closed_len, neutralized_at, neutralized_chain,
    oversized_closed, oversized_closed_from,
};
use crate::sgr::SgrState;
use crate::split::{
    first_line_end, lemma_line_break_from, lemma_stream_split, line_break_from, stream_split,
};
use crate::stream_model::{
    after_boundary, at_prompt, begins_with, behind, by_lines, chunk_ends, chunk_run,
    chunk_start, combined_run, finishes, flushes, gives, incoming, keeping, kept_echo, kept_run,
    left_over, lemma_combined_settings, lemma_kept_settings, lines_run, live_split, output_run, pieces_run, prompt_run, pushes, rendition,
    settles, shows_echo, starts_echo, taking, token_step, tokens_run, whole_run, Step, Stream,
};
use crate::string_filter::{filtered, OversizedStringControlMode};
use crate::style::{ColorMode, Style};
use crate::units::{
    cut_at, lemma_between, lemma_cut_ends, lemma_cut_within, lemma_next_cut, lemma_sound_concat,
    lemma_sound_split, lemma_sound_unit, lemma_tokens_sound, rest_of, sound, sound_tokens, whole,
};
use crate::utf8::{char_width_at, cut_char_start, lemma_cut_char_in_range};
use crate::weave::{
    change, lemma_change, lemma_shown_step, lemma_style_changes, lemma_unit, lemma_woven, one_sgr,
    renditions_stay_tidy, sgrs, shown_from, tidy, woven,
};

verus! {

/// A CSI sequence that sets the rendition.
pub open spec fn color_control(t: Seq<u8>) -> bool {
    &&& 0 < csi_intro(t) < t.len()
    &&& t.last() == 0x6d
    &&& forall|k: int|
        csi_intro(t) <= k < t.len() - 1 ==> !(0x40 <= #[trigger] t[k] <= 0x7e) && t[k] != 0x1b
}

/// How careful a change of colors is: whether it leaves units whole, and
/// whether it drops SGR sequences.
pub struct Care {
    pub whole: bool,
    pub drops: bool,
}

/// A step from a text to another: bytes that both have, or an SGR sequence
/// that only one of them has.
pub enum Edit {
    Kept(Seq<u8>),
    Added(Seq<u8>),
    Dropped(Seq<u8>),
}

impl Edit {
    pub open spec fn is_color(self, care: Care) -> bool {
        match self {
            Edit::Kept(u) => care.whole ==> whole(u),
            Edit::Added(t) => one_sgr(t),
            Edit::Dropped(t) => care.drops && color_control(t) && (care.whole ==> whole(t)),
        }
    }

    pub open spec fn before(self) -> Seq<u8> {
        match self {
            Edit::Kept(u) => u,
            Edit::Added(_) => Seq::empty(),
            Edit::Dropped(t) => t,
        }
    }

    pub open spec fn after(self) -> Seq<u8> {
        match self {
            Edit::Kept(u) => u,
            Edit::Added(t) => t,
            Edit::Dropped(_) => Seq::empty(),
        }
    }
}

/// The text that the steps start from.
pub open spec fn unedited(edits: Seq<Edit>) -> Seq<u8>
    decreases edits.len(),
{
    if edits.len() == 0 {
        Seq::empty()
    } else {
        unedited(edits.drop_last()) + edits.last().before()
    }
}

/// The text that the steps lead to.
pub open spec fn edited(edits: Seq<Edit>) -> Seq<u8>
    decreases edits.len(),
{
    if edits.len() == 0 {
        Seq::empty()
    } else {
        edited(edits.drop_last()) + edits.last().after()
    }
}

pub open spec fn color_edits(edits: Seq<Edit>, care: Care) -> bool {
    forall|k: int| 0 <= k < edits.len() ==> (#[trigger] edits[k]).is_color(care)
}

/// `out` is `s` but for SGR sequences: some are added, some may be dropped, and
/// every other byte is kept, in order. With `care.whole`, both are made of
/// whole units, and what is kept are whole units.
#[verifier::opaque]
pub open spec fn recolored(out: Seq<u8>, s: Seq<u8>, care: Care) -> bool {
    exists|edits: Seq<Edit>| #[trigger]
        color_edits(edits, care) && edited(edits) == out && unedited(edits) == s
}

pub proof fn lemma_edits_concat(a: Seq<Edit>, b: Seq<Edit>)
    ensures
        edited(a + b) == edited(a) + edited(b),
        unedited(a + b) == unedited(a) + unedited(b),
    decreases b.len(),
{
    if b.len() == 0 {
        assert(a + b =~= a);
        assert(edited(a) + edited(b) =~= edited(a));
        assert(unedited(a) + unedited(b) =~= unedited(a));
    } else {
        assert((a + b).drop_last() =~= a + b.drop_last());
        assert((a + b).last() == b.last());
        lemma_edits_concat(a, b.drop_last());
        assert(edited(a) + edited(b) =~= edited(a) + edited(b.drop_last()) + b.last().after());
        assert(unedited(a) + unedited(b) =~= unedited(a) + unedited(b.drop_last())
            + b.last().before());
    }
}

/// Recolored texts, one behind the other, are a recolored text.
pub proof fn recoloring_goes_on(a: Seq<u8>, s: Seq<u8>, b: Seq<u8>, t: Seq<u8>, care: Care)
    requires
        recolored(a, s, care),
        recolored(b, t, care),
    ensures
        recolored(a + b, s + t, care),
{
    reveal(recolored);
    let x = choose|edits: Seq<Edit>| #[trigger]
        color_edits(edits, care) && edited(edits) == a && unedited(edits) == s;
    let y = choose|edits: Seq<Edit>| #[trigger]
        color_edits(edits, care) && edited(edits) == b && unedited(edits) == t;
    lemma_edits_concat(x, y);
    assert forall|k: int| 0 <= k < (x + y).len() implies (#[trigger] (x + y)[k]).is_color(care) by {
        if k < x.len() {
            assert((x + y)[k] == x[k]);
        } else {
            assert((x + y)[k] == y[k - x.len()]);
        }
    }
    assert(color_edits(x + y, care));
}

proof fn lemma_one_edit(edit: Edit, care: Care)
    requires
        edit.is_color(care),
    ensures
        recolored(edit.after(), edit.before(), care),
{
    reveal(recolored);
    let edits = seq![edit];
    reveal_with_fuel(edited, 2);
    reveal_with_fuel(unedited, 2);
    assert(edits.drop_last() =~= Seq::<Edit>::empty());
    assert(edits.last() == edit);
    assert(edited(edits) =~= edit.after());
    assert(unedited(edits) =~= edit.before());
    assert(color_edits(edits, care));
}

pub proof fn lemma_nothing(care: Care)
    ensures
        recolored(Seq::empty(), Seq::empty(), care),
{
    reveal(recolored);
    let edits = Seq::<Edit>::empty();
    assert(color_edits(edits, care));
    assert(edited(edits) =~= Seq::<u8>::empty());
    assert(unedited(edits) =~= Seq::<u8>::empty());
}

/// A text is a recoloring of itself.
pub proof fn unchanged_text_is_recolored(s: Seq<u8>, care: Care)
    requires
        care.whole ==> sound(s),
    ensures
        recolored(s, s, care),
    decreases s.len(),
{
    if s.len() == 0 {
        lemma_nothing(care);
        assert(s =~= Seq::<u8>::empty());
    } else {
        let n = if care.whole {
            lemma_sound_split(s)
        } else {
            1
        };
        let u = s.subrange(0, n);
        let rest = rest_of(s, n);
        unchanged_text_is_recolored(rest, care);
        lemma_one_edit(Edit::Kept(u), care);
        recoloring_goes_on(u, u, rest, rest, care);
        assert(u + rest =~= s);
    }
}

proof fn lemma_added(t: Seq<u8>, care: Care)
    requires
        sgrs(t),
    ensures
        recolored(t, Seq::empty(), care),
    decreases t.len(),
{
    if t.len() == 0 {
        lemma_nothing(care);
        assert(t =~= Seq::<u8>::empty());
    } else {
        let n = choose|n: int|
            3 <= n <= t.len() && #[trigger] one_sgr(t.subrange(0, n)) && sgrs(
                t.subrange(n, t.len() as int),
            );
        let one = t.subrange(0, n);
        let rest = t.subrange(n, t.len() as int);
        lemma_one_edit(Edit::Added(one), care);
        lemma_added(rest, care);
        recoloring_goes_on(one, Seq::empty(), rest, Seq::empty(), care);
        assert(one + rest =~= t);
        assert(Seq::<u8>::empty() + Seq::<u8>::empty() =~= Seq::<u8>::empty());
    }
}

/// More SGR sequences behind recolored text.
proof fn lemma_more_added(out: Seq<u8>, s: Seq<u8>, t: Seq<u8>, care: Care)
    requires
        recolored(out, s, care),
        sgrs(t),
    ensures
        recolored(out + t, s, care),
{
    lemma_added(t, care);
    recoloring_goes_on(out, s, t, Seq::empty(), care);
    assert(s + Seq::<u8>::empty() =~= s);
}

/// More text that is kept behind recolored text.
proof fn lemma_more_kept(out: Seq<u8>, s: Seq<u8>, t: Seq<u8>, care: Care)
    requires
        recolored(out, s, care),
        care.whole ==> sound(t),
    ensures
        recolored(out + t, s + t, care),
{
    unchanged_text_is_recolored(t, care);
    recoloring_goes_on(out, s, t, t, care);
}

proof fn lemma_text_pen(
    at: Pen,
    inks: Inks,
    text: Seq<u8>,
    styles: Seq<Option<Style>>,
    pos: int,
    s: Seq<u8>,
    care: Care,
)
    requires
        tidy(at.native),
        recolored(at.out, s, care),
        !care.whole,
    ensures
        at.after_text(inks, text, styles, pos).native == at.native,
        recolored(at.after_text(inks, text, styles, pos).out, s + text, care),
    decreases text.len(),
{
    if text.len() == 0 {
        assert(s + text =~= s);
    } else {
        let before = at.after_text(inks, text.drop_last(), styles, pos);
        let b = text.last();
        let want = wanted(styles, pos + text.len() - 1, inks.reset);
        lemma_text_pen(at, inks, text.drop_last(), styles, pos, s, care);
        lemma_change(before, inks, b, want);
        lemma_more_added(before.out, s + text.drop_last(), change(before, inks, b, want), care);
        lemma_more_kept(
            before.out + change(before, inks, b, want),
            s + text.drop_last(),
            seq![b],
            care,
        );
        assert(s + text.drop_last() + seq![b] =~= s + text);
    }
}

proof fn lemma_tokens_pen(
    at: Pen,
    inks: Inks,
    tokens: Seq<TokenView>,
    styles: Seq<Option<Style>>,
    s: Seq<u8>,
    care: Care,
)
    requires
        tidy(at.native),
        recolored(at.out, s, care),
        !care.whole,
    ensures
        tidy(at.after_tokens(inks, tokens, styles).native),
        recolored(at.after_tokens(inks, tokens, styles).out, s + joined(tokens), care),
    decreases tokens.len(),
{
    if tokens.len() == 0 {
        assert(s + joined(tokens) =~= s);
    } else {
        let before = at.after_tokens(inks, tokens.drop_last(), styles);
        let done = s + joined(tokens.drop_last());
        lemma_tokens_pen(at, inks, tokens.drop_last(), styles, s, care);
        assert(s + joined(tokens) =~= done + tokens.last().bytes());
        match tokens.last() {
            TokenView::Ansi(bytes) => {
                renditions_stay_tidy(before.native, bytes);
                lemma_style_changes(before.active, inks.color, before.native, inks.reset);
                lemma_more_kept(before.out, done, bytes, care);
                lemma_more_added(
                    before.out + bytes,
                    done + bytes,
                    started(before.active, inks.color),
                    care,
                );
            },
            TokenView::Text(text) => {
                lemma_text_pen(
                    before,
                    inks,
                    text,
                    styles,
                    text_of(tokens.drop_last()).len() as int,
                    done,
                    care,
                );
            },
        }
    }
}

/// The styles leave units whole: one for each visible byte, bytes of one
/// character alike.
pub open spec fn unit_styles(s: Seq<u8>, styles: Seq<Option<Style>>) -> bool {
    styles.len() == visible(s).len() && whole_characters(visible(s), styles)
}

#[verifier::rlimit(80)]
#[verifier::spinoff_prover]
proof fn lemma_units_pen(
    s: Seq<u8>,
    i: int,
    inks: Inks,
    styles: Seq<Option<Style>>,
    pos: int,
    at: Pen,
    care: Care,
)
    requires
        care.whole,
        cut_at(s, i),
        unit_styles(s, styles),
        shown_from(s, i, pos),
        tidy(at.native),
        recolored(at.out, s.subrange(0, i), care),
    ensures
        recolored(woven(s, i, inks, styles, pos, at).out, s, care),
        tidy(woven(s, i, inks, styles, pos, at).native),
    decreases s.len() - i,
{
    if i < s.len() {
        let e = lemma_next_cut(s, i);
        let u = s.subrange(i, e);
        lemma_shown_step(s, i, pos);
        lemma_sound_unit(u, Seq::empty());
        assert(u + Seq::<u8>::empty() =~= u);
        assert(s.subrange(0, i) + u =~= s.subrange(0, e));
        if control_at(s, i) {
            renditions_stay_tidy(at.native, u);
            lemma_style_changes(at.active, inks.color, at.native, inks.reset);
            lemma_more_kept(at.out, s.subrange(0, i), u, care);
            lemma_more_added(
                at.out + u,
                s.subrange(0, e),
                started(at.active, inks.color),
                care,
            );
            lemma_units_pen(s, e, inks, styles, pos, at.after_control(inks, u), care);
        } else {
            let c = change(at, inks, s[i], wanted(styles, pos, inks.reset));
            lemma_unit(s, i, pos, inks, styles, at, e - i);
            lemma_more_added(at.out, s.subrange(0, i), c, care);
            lemma_more_kept(at.out + c, s.subrange(0, i), u, care);
            lemma_units_pen(
                s,
                e,
                inks,
                styles,
                pos + (e - i),
                at.after_text(inks, u, styles, pos),
                care,
            );
        }
    } else {
        assert(s.subrange(0, i) =~= s);
    }
}

/// Writing text with styles adds SGR sequences and nothing else.
pub proof fn writing_adds_colors(
    s: Seq<u8>,
    styles: Seq<Option<Style>>,
    inks: Inks,
    native: SgrState,
    active: Option<Style>,
    care: Care,
)
    requires
        tidy(native),
        care.whole ==> sound(s) && unit_styles(s, styles),
    ensures
        recolored(pen(native, active).after_tokens(inks, tokens_of(s), styles).out, s, care),
        tidy(pen(native, active).after_tokens(inks, tokens_of(s), styles).native),
{
    lemma_nothing(care);
    let at = pen(native, active);
    if care.whole {
        lemma_woven(s, at, inks, styles);
        lemma_cut_ends(s);
        assert(visible(s).subrange(0, visible(s).len() as int) =~= visible(s));
        assert(s.subrange(0, 0) =~= Seq::<u8>::empty());
        lemma_units_pen(s, 0, inks, styles, 0, at, care);
    } else {
        lemma_tokens_pen(at, inks, tokens_of(s), styles, Seq::empty(), care);
        tokens_join_to_input(s);
        assert(Seq::<u8>::empty() + s =~= s);
    }
}

/// Highlighted text is the text but for SGR sequences.
pub proof fn highlighting_adds_colors(
    s: Seq<u8>,
    styles: Seq<Option<Style>>,
    color: ColorMode,
    reset: ResetMode,
    native: SgrState,
    care: Care,
)
    requires
        tidy(native),
        care.whole ==> sound(s) && unit_styles(s, styles),
    ensures
        recolored(highlighted(tokens_of(s), styles, color, reset, native), s, care),
{
    let inks = Inks { live: false, color, reset };
    let done = pen(native, None).after_tokens(inks, tokens_of(s), styles);
    writing_adds_colors(s, styles, inks, native, None, care);
    lemma_style_changes(done.active, color, done.native, reset);
    lemma_more_added(done.out, s, ended(done.active, done.native, reset), care);
}

/// SGR sequences are added, none is dropped.
pub open spec fn adding() -> Care {
    Care { whole: false, drops: false }
}

/// Whatever rules a highlighter has and whatever they come to, its output is
/// its input with SGR sequences in between: no byte of the input is changed,
/// dropped or moved.
pub proof fn highlighters_add_colors_only(h: HighlighterView, input: Seq<u8>, out: Seq<u8>)
    requires
        highlighting(h, input, Ok(out)),
    ensures
        recolored(out, input, adding()),
        subsequence(input, out),
{
    let styles = choose|styles: Result<Seq<Option<Style>>, MatchIssue>| #[trigger]
        styles_possible(h.rules, visible(input), styles) && Ok::<Seq<u8>, MatchIssue>(out)
            == highlighted_with(h, input, styles);
    highlighting_adds_colors(
        input,
        styles->Ok_0,
        h.color,
        ResetMode::Full,
        SgrState::initial(),
        adding(),
    );
    added_colors_keep_all_bytes(out, input, false);
}

/// Where only SGR sequences are added, the text is a subsequence of what it
/// became.
pub proof fn added_colors_keep_all_bytes(out: Seq<u8>, s: Seq<u8>, whole: bool)
    requires
        recolored(out, s, Care { whole, drops: false }),
    ensures
        subsequence(s, out),
{
    reveal(recolored);
    let care = Care { whole, drops: false };
    let edits = choose|edits: Seq<Edit>| #[trigger]
        color_edits(edits, care) && edited(edits) == out && unedited(edits) == s;
    lemma_edits_keep(edits, care);
}

proof fn lemma_edits_keep(edits: Seq<Edit>, care: Care)
    requires
        color_edits(edits, care),
        !care.drops,
    ensures
        subsequence(unedited(edits), edited(edits)),
    decreases edits.len(),
{
    if edits.len() == 0 {
        lemma_subsequence_self(Seq::<u8>::empty());
    } else {
        let last = edits.last();
        assert(color_edits(edits.drop_last(), care)) by {
            assert forall|k: int| 0 <= k < edits.drop_last().len() implies (
            #[trigger] edits.drop_last()[k]).is_color(care) by {
                assert(edits.drop_last()[k] == edits[k]);
            }
        }
        assert(edits[edits.len() - 1].is_color(care));
        lemma_edits_keep(edits.drop_last(), care);
        match last {
            Edit::Kept(u) => lemma_subsequence_self(u),
            Edit::Added(t) => lemma_subsequence_empty(t),
            Edit::Dropped(_) => {},
        }
        lemma_subsequence_concat(
            unedited(edits.drop_last()),
            edited(edits.drop_last()),
            last.before(),
            last.after(),
        );
    }
}

proof fn lemma_overlay_end(st: Stream)
    requires
        tidy(st.native),
    ensures
        sgrs(st.overlay_end()),
{
    lemma_style_changes(st.overlay, st.highlighter.color, st.native, st.reset_mode());
}

/// The stream has kept the same bytes for later, and knows the same of an open
/// control string.
pub open spec fn same_pending(a: Stream, b: Stream) -> bool {
    a.pending == b.pending && a.filter == b.filter
}

proof fn lemma_flush_recolors(st: Stream, s: Seq<u8>, out: Seq<u8>, end: Stream, care: Care)
    requires
        tidy(st.native),
        flushes(st, s, out, end),
        care.whole ==> sound(s),
    ensures
        tidy(end.native),
        recolored(out, s, care),
        same_pending(st, end),
{
    if s.len() == 0 {
        lemma_nothing(care);
        assert(s =~= Seq::<u8>::empty());
    } else {
        let matched = choose|matched: Progress| #[trigger]
            st.can_match(s, matched) && (out, end) == st.written(s, matched);
        let styles = matched.paint.result();
        let color = st.highlighter.color;
        live_styles_keep_characters_whole(
            st.highlighter.rules,
            visible(s),
            progress(visible(s).len(), st.timing, st.disabled),
            matched,
        );
        if st.live {
            let inks = Inks { live: true, color, reset: st.reset_mode() };
            writing_adds_colors(s, styles, inks, st.native, st.overlay, care);
        } else {
            highlighting_adds_colors(s, styles, color, ResetMode::Full, SgrState::initial(), care);
        }
    }
}

proof fn lemma_boundary_recolors(st: Stream, bytes: Seq<u8>, care: Care)
    requires
        tidy(st.native),
        care.whole ==> sound(bytes),
    ensures
        tidy(after_boundary(st, bytes).1.native),
        recolored(after_boundary(st, bytes).0, bytes, care),
        same_pending(st, after_boundary(st, bytes).1),
{
    renditions_stay_tidy(st.native, bytes);
    lemma_overlay_end(st);
    lemma_added(st.overlay_end(), care);
    lemma_more_kept(st.overlay_end(), Seq::empty(), bytes, care);
    assert(Seq::<u8>::empty() + bytes =~= bytes);
    unchanged_text_is_recolored(bytes, care);
}

/// The output of a step, with what it holds, is what it was given but for
/// colors.
pub open spec fn in_step(a: Step, given: Seq<u8>, care: Care) -> bool {
    &&& tidy(a.st.native)
    &&& care.whole ==> sound(a.held)
    &&& exists|done: Seq<u8>| #[trigger] recolored(a.out, done, care) && given == done + a.held
}

proof fn lemma_in_step(a: Step, done: Seq<u8>, given: Seq<u8>, care: Care)
    requires
        tidy(a.st.native),
        recolored(a.out, done, care),
        given == done + a.held,
        care.whole ==> sound(a.held),
    ensures
        in_step(a, given, care),
{
}

proof fn lemma_token_recolors(a: Step, token: TokenView, b: Step, given: Seq<u8>, care: Care)
    requires
        in_step(a, given, care),
        token_step(a, token, b),
        care.whole ==> sound(token.bytes()),
        a.st.alternate && !a.st.live ==> a.held.len() == 0,
    ensures
        in_step(b, given + token.bytes(), care),
        same_pending(a.st, b.st),
        b.st.live == a.st.live,
        b.st.alternate && !b.st.live ==> b.held.len() == 0,
{
    let done = choose|done: Seq<u8>| #[trigger] recolored(a.out, done, care) && given == done + a.held;
    let bytes = token.bytes();
    if care.whole {
        lemma_sound_concat(a.held, bytes);
    }
    assert(done + a.held + bytes =~= done + (a.held + bytes));
    match token {
        TokenView::Ansi(x) => {
            if screen_command(x) is Some || (a.st.alternate && a.st.live && layout_sequence(x)) {
                let (o, mid) = choose|o: Seq<u8>, mid: Stream| #[trigger]
                    flushes(a.st, a.held, o, mid) && b == (Step {
                        st: after_boundary(mid, x).1,
                        held: Seq::empty(),
                        out: a.out + o + after_boundary(mid, x).0,
                    });
                lemma_flush_recolors(a.st, a.held, o, mid, care);
                lemma_boundary_recolors(mid, x, care);
                recoloring_goes_on(a.out, done, o, a.held, care);
                recoloring_goes_on(a.out + o, given, after_boundary(mid, x).0, x, care);
                assert(given + x =~= given + x + b.held);
                lemma_in_step(b, given + x, given + bytes, care);
            } else if a.st.alternate && !a.st.live {
                renditions_stay_tidy(a.st.native, x);
                lemma_more_kept(a.out, done, x, care);
                assert(given + x =~= (done + x) + b.held);
                lemma_in_step(b, done + x, given + bytes, care);
            } else {
                lemma_in_step(b, done, given + bytes, care);
            }
        },
        TokenView::Text(x) => {
            if a.st.alternate && !a.st.live {
                lemma_more_kept(a.out, done, x, care);
                assert(given + x =~= (done + x) + b.held);
                lemma_in_step(b, done + x, given + bytes, care);
            } else {
                lemma_in_step(b, done, given + bytes, care);
            }
        },
    }
}

proof fn lemma_tokens_recolor(a: Step, tokens: Seq<TokenView>, b: Step, given: Seq<u8>, care: Care)
    requires
        in_step(a, given, care),
        tokens_run(a, tokens, b),
        care.whole ==> sound_tokens(tokens),
        a.st.alternate && !a.st.live ==> a.held.len() == 0,
    ensures
        in_step(b, given + joined(tokens), care),
        same_pending(a.st, b.st),
        b.st.alternate && !b.st.live ==> b.held.len() == 0,
    decreases tokens.len(),
{
    if tokens.len() == 0 {
        assert(given + joined(tokens) =~= given);
    } else {
        let mid = choose|mid: Step|
            tokens_run(a, tokens.drop_last(), mid) && #[trigger] token_step(mid, tokens.last(), b);
        if care.whole {
            assert forall|k: int| 0 <= k < tokens.drop_last().len() implies sound(
                (#[trigger] tokens.drop_last()[k]).bytes(),
            ) by {
                assert(tokens.drop_last()[k] == tokens[k]);
            }
            assert(sound(tokens[tokens.len() - 1].bytes()));
        }
        lemma_tokens_recolor(a, tokens.drop_last(), mid, given, care);
        lemma_token_recolors(mid, tokens.last(), b, given + joined(tokens.drop_last()), care);
        assert(given + joined(tokens) =~= given + joined(tokens.drop_last())
            + tokens.last().bytes());
    }
}

proof fn lemma_rendition_tidy(native: SgrState, tokens: Seq<TokenView>)
    requires
        tidy(native),
    ensures
        tidy(rendition(native, tokens)),
    decreases tokens.len(),
{
    if tokens.len() > 0 {
        lemma_rendition_tidy(native, tokens.drop_last());
        if let TokenView::Ansi(bytes) = tokens.last() {
            renditions_stay_tidy(rendition(native, tokens.drop_last()), bytes);
        }
    }
}

proof fn lemma_untouched_recolors(st: Stream, s: Seq<u8>, care: Care)
    requires
        tidy(st.native),
        care.whole ==> sound(s),
    ensures
        recolored(st.overlay_end() + s, s, care),
        tidy(st.after_untouched(s).native),
        same_pending(st, st.after_untouched(s)),
{
    lemma_overlay_end(st);
    lemma_added(st.overlay_end(), care);
    lemma_more_kept(st.overlay_end(), Seq::empty(), s, care);
    assert(Seq::<u8>::empty() + s =~= s);
    lemma_rendition_tidy(st.native, tokens_of(s));
}

proof fn lemma_chunk_recolors(st: Stream, s: Seq<u8>, out: Seq<u8>, end: Stream, care: Care)
    requires
        tidy(st.native),
        chunk_run(st, s, out, end),
        care.whole ==> sound(s),
    ensures
        recolored(out, s, care),
        tidy(end.native),
        same_pending(st, end),
{
    reveal(chunk_run);
    if st.live && st.leaves_alone(s) {
        lemma_untouched_recolors(st, s, care);
    } else {
        let last = choose|last: Step| #[trigger]
            tokens_run(chunk_start(st), tokens_of(s), last) && chunk_ends(last, out, end);
        let none = Seq::<u8>::empty();
        lemma_nothing(care);
        assert(none + none =~= none);
        lemma_in_step(chunk_start(st), none, none, care);
        if care.whole {
            lemma_tokens_sound(s);
        }
        lemma_tokens_recolor(chunk_start(st), tokens_of(s), last, none, care);
        tokens_join_to_input(s);
        assert(none + s =~= s);
        let o = choose|o: Seq<u8>| #[trigger]
            flushes(last.st, last.held, o, end) && out == last.out + o;
        lemma_flush_recolors(last.st, last.held, o, end, care);
        let done = choose|done: Seq<u8>| #[trigger]
            recolored(last.out, done, care) && s == done + last.held;
        recoloring_goes_on(last.out, done, o, last.held, care);
    }
}

proof fn lemma_lines_recolor(st: Stream, s: Seq<u8>, from: int, out: Seq<u8>, end: Stream, care: Care)
    requires
        0 <= from <= s.len(),
        tidy(st.native),
        lines_run(st, s, from, out, end),
        care.whole ==> sound(s.subrange(from, s.len() as int)),
    ensures
        recolored(out, s.subrange(from, s.len() as int), care),
        tidy(end.native),
        same_pending(st, end),
    decreases s.len() - from,
{
    let rest = s.subrange(from, s.len() as int);
    if from == s.len() {
        lemma_nothing(care);
        assert(rest =~= Seq::<u8>::empty());
    } else {
        lemma_line_break_from(rest, 0);
        match line_break_from(rest, 0) {
            Some((at, to)) => {
                let line = rest.subrange(0, at);
                let breaks = rest.subrange(at, to);
                let (o, mid) = choose|o: Seq<u8>, mid: Stream| #[trigger]
                    chunk_run(st, line, o, mid) && begins_with(out, o + breaks) && lines_run(
                        mid,
                        s,
                        from + to,
                        behind(out, o + breaks),
                        end,
                    );
                let more = behind(out, o + breaks);
                if care.whole {
                    lemma_cut_ends(rest);
                    lemma_break_cut(rest, 0);
                    assert(rest_of(rest, to) =~= s.subrange(from + to, s.len() as int));
                    lemma_between(rest, at, to);
                }
                lemma_chunk_recolors(st, line, o, mid, care);
                lemma_more_kept(o, line, breaks, care);
                lemma_lines_recolor(mid, s, from + to, more, end, care);
                let left = s.subrange(from + to, s.len() as int);
                recoloring_goes_on(o + breaks, line + breaks, more, left, care);
                assert(line + breaks + left =~= rest);
                assert(o + breaks + more =~= out);
            },
            None => lemma_chunk_recolors(st, rest, out, end, care),
        }
    }
}

/// A line break stands where sound text can be cut.
proof fn lemma_break_cut(s: Seq<u8>, i: int)
    requires
        cut_at(s, i),
    ensures
        line_break_from(s, i) matches Some((at, to)) ==> cut_at(s, at) && cut_at(s, to),
    decreases s.len() - i,
{
    if i < s.len() {
        let e = lemma_next_cut(s, i);
        let u = s.subrange(i, e);
        assert(u[0] == s[i]);
        lemma_control_end(s, i);
        if control_at(s, i) {
            lemma_break_cut(s, e);
        } else if s[i] == 0x0d || s[i] == 0x0a {
            assert(e == i + 1);
            if s[i] == 0x0d && i + 1 < s.len() && s[i + 1] == 0x0a {
                let f = lemma_next_cut(s, e);
                assert(s.subrange(e, f)[0] == s[e]);
            }
        } else {
            lemma_break_cut(s, e);
        }
    }
}

/// Highlighted output is the output but for SGR sequences.
pub proof fn output_changes_colors_only(st: Stream, s: Seq<u8>, out: Seq<u8>, end: Stream, care: Care)
    requires
        tidy(st.native),
        output_run(st, s, out, end),
        care.whole ==> sound(s),
    ensures
        recolored(out, s, care),
        tidy(end.native),
        same_pending(st, end),
{
    if !st.live {
        lemma_chunk_recolors(st, s, out, end, care);
    } else if st.leaves_alone(s) {
        lemma_untouched_recolors(st, s, care);
    } else {
        assert(s.subrange(0, s.len() as int) =~= s);
        lemma_lines_recolor(st, s, 0, out, end, care);
    }
}

proof fn lemma_csi_body(s: Seq<u8>, j: int)
    requires
        0 <= j <= s.len(),
    ensures
        forall|k: int|
            j <= k < csi_end(s, j) - 1 ==> !(0x40 <= #[trigger] s[k] <= 0x7e) && s[k] != 0x1b,
    decreases s.len() - j,
{
    if j < s.len() && !control_at(s, j) {
        let w = char_width_at(s, j);
        if w > 0 {
            lemma_csi_body(s, j + w);
        } else if !(cancels(s[j]) || 0x40 <= s[j] <= 0x7e) {
            lemma_csi_body(s, j + 1);
        }
    }
}

proof fn lemma_sgr_control(s: Seq<u8>, i: int)
    requires
        0 <= i < s.len(),
        control_at(s, i),
        is_sgr(s.subrange(i, control_end(s, i))),
    ensures
        color_control(s.subrange(i, control_end(s, i))),
{
    lemma_control_end(s, i);
    let e = control_end(s, i);
    let t = s.subrange(i, e);
    let n = csi_intro(t);
    assert(t.len() >= 2 ==> t.subrange(0, 2) =~= seq![t[0], t[1]]);
    assert(t.len() >= 1 ==> t.subrange(0, 1) =~= seq![t[0]]);
    assert(seq![0x1bu8, 0x5bu8][0] == 0x1b && seq![0x1bu8, 0x5bu8][1] == 0x5b);
    assert(seq![0xc2u8, 0x9bu8][0] == 0xc2 && seq![0xc2u8, 0x9bu8][1] == 0x9b);
    assert(seq![0x9bu8][0] == 0x9b);
    assert(t[0] == s[i]);
    if t.len() >= 2 {
        assert(t[1] == s[i + 1]);
    }
    assert(e == csi_end(s, i + n));
    lemma_csi_body(s, i + n);
    assert forall|k: int| n <= k < t.len() - 1 implies !(0x40 <= #[trigger] t[k] <= 0x7e) && t[k]
        != 0x1b by {
        assert(t[k] == s[i + k]);
    }
}

/// The range is an SGR sequence of `s`.
pub open spec fn color_range(s: Seq<u8>, r: (int, int), care: Care) -> bool {
    &&& 0 <= r.0 < r.1 <= s.len()
    &&& color_control(s.subrange(r.0, r.1))
    &&& care.whole ==> cut_at(s, r.0) && whole(s.subrange(r.0, r.1))
}

pub open spec fn color_ranges(s: Seq<u8>, ranges: Seq<(int, int)>, care: Care) -> bool {
    forall|r: (int, int)| #[trigger] ranges.contains(r) ==> color_range(s, r, care)
}

proof fn lemma_ranges_concat(s: Seq<u8>, a: Seq<(int, int)>, b: Seq<(int, int)>, care: Care)
    requires
        color_ranges(s, a, care),
        color_ranges(s, b, care),
    ensures
        color_ranges(s, a + b, care),
{
    assert forall|r: (int, int)| #[trigger] (a + b).contains(r) implies color_range(s, r, care) by {
        let k = choose|k: int| 0 <= k < (a + b).len() && (a + b)[k] == r;
        if k < a.len() {
            assert(a[k] == r);
            assert(a.contains(r));
        } else {
            assert(b[k - a.len()] == r);
            assert(b.contains(r));
        }
    }
}

proof fn lemma_sgr_ranges_color(s: Seq<u8>, i: int, care: Care)
    requires
        0 <= i,
        care.whole ==> cut_at(s, i),
    ensures
        color_ranges(s, sgr_ranges(s, i), care),
    decreases s.len() - i,
{
    if i < s.len() {
        lemma_control_end(s, i);
        if care.whole {
            lemma_next_cut(s, i);
        }
        if control_at(s, i) {
            let end = control_end(s, i);
            lemma_sgr_ranges_color(s, end, care);
            if is_sgr(s.subrange(i, end)) {
                lemma_sgr_control(s, i);
                let one = seq![(i, end)];
                assert forall|r: (int, int)| #[trigger] one.contains(r) implies color_range(
                    s,
                    r,
                    care,
                ) by {}
                lemma_ranges_concat(s, one, sgr_ranges(s, end), care);
            }
        } else {
            lemma_sgr_ranges_color(s, text_unit_end(s, i), care);
        }
    }
}

proof fn lemma_within_color(s: Seq<u8>, ranges: Seq<(int, int)>, from: int, to: int, care: Care)
    requires
        color_ranges(s, ranges, care),
    ensures
        color_ranges(s, ranges_within(ranges, from, to), care),
{
    let p = |r: (int, int)| from <= r.0 < to;
    assert forall|r: (int, int)| #[trigger] ranges.filter(p).contains(r) implies color_range(
        s,
        r,
        care,
    ) by {
        ranges.lemma_filter_contains_rev(p, r);
    }
}

proof fn lemma_plan_color(s: Seq<u8>, v: Seq<(u8, int)>, goes_on: bool, i: int, care: Care)
    requires
        care.whole ==> sound(s),
    ensures
        color_ranges(s, plan_from(s, v, goes_on, i).removed, care),
    decreases v.len() - i,
{
    let end = shown_break(v, i);
    if 0 <= i <= end && i <= v.len() {
        if care.whole {
            lemma_cut_ends(s);
        }
        lemma_sgr_ranges_color(s, 0, care);
        let here = line_plan(s, v, goes_on, i, end).removed;
        assert(color_ranges(s, here, care)) by {
            assert forall|from: int, to: int| color_ranges(
                s,
                #[trigger] ranges_within(sgr_ranges(s, 0), from, to),
                care,
            ) by {
                lemma_within_color(s, sgr_ranges(s, 0), from, to, care);
            }
        }
        if end < v.len() {
            lemma_plan_color(s, v, goes_on, end + 1, care);
            lemma_ranges_concat(s, here, plan_from(s, v, goes_on, end + 1).removed, care);
        }
    }
}

/// A whole unit that is not dropped is written as it is.
proof fn lemma_unit_replanned(s: Seq<u8>, plan: SgrPlan, reset: Seq<u8>, i: int, e: int, k: int)
    requires
        cut_at(s, i),
        i < k <= e <= s.len(),
        whole(s.subrange(i, e)),
        at_cuts(s, plan.resets),
        forall|r: (int, int)| #[trigger] plan.removed.contains(r) ==> cut_at(s, r.0),
    ensures
        replanned(s, plan, reset, k) == s.subrange(k, e) + replanned(s, plan, reset, e),
    decreases e - k,
{
    if k < e {
        lemma_no_cut_inside(s, i, e, k);
        lemma_unit_replanned(s, plan, reset, i, e, k + 1);
        assert(s.subrange(k, e) =~= seq![s[k]] + s.subrange(k + 1, e));
        let none = Seq::<u8>::empty();
        assert(none + seq![s[k]] + replanned(s, plan, reset, k + 1) =~= s.subrange(k, e)
            + replanned(s, plan, reset, e));
    } else {
        assert(s.subrange(k, e) + replanned(s, plan, reset, e) =~= replanned(s, plan, reset, e));
    }
}

/// What stands for `s[i..e]` where the plan is carried out, but for a reset.
spec fn planned(s: Seq<u8>, plan: SgrPlan, i: int, e: int) -> Seq<u8> {
    if control_at(s, i) && plan.removed.contains((i, control_end(s, i))) {
        Seq::empty()
    } else {
        s.subrange(i, e)
    }
}

proof fn lemma_step_joined(s: Seq<u8>, i: int, e: int, head: Seq<u8>, rest: Seq<u8>)
    requires
        0 <= i < e <= s.len(),
    ensures
        head + seq![s[i]] + (s.subrange(i + 1, e) + rest) == head + s.subrange(i, e) + rest,
{
    assert(head + seq![s[i]] + (s.subrange(i + 1, e) + rest) =~= head + s.subrange(i, e) + rest);
}

/// The next part that is dropped or kept as a whole.
#[verifier::rlimit(100)]
#[verifier::spinoff_prover]
proof fn lemma_planned_step(s: Seq<u8>, plan: SgrPlan, reset: Seq<u8>, i: int, care: Care) -> (e:
    int)
    requires
        0 <= i < s.len(),
        color_ranges(s, plan.removed, care),
        care.whole ==> cut_at(s, i) && at_cuts(s, plan.resets),
    ensures
        i < e <= s.len(),
        control_at(s, i) && plan.removed.contains((i, control_end(s, i))) ==> e == control_end(
            s,
            i,
        ),
        care.whole ==> cut_at(s, e) && whole(s.subrange(i, e)),
        replanned(s, plan, reset, i) == (if plan.resets.contains(i) {
            reset
        } else {
            Seq::empty()
        }) + planned(s, plan, i, e) + replanned(s, plan, reset, e),
{
    let head = if plan.resets.contains(i) {
        reset
    } else {
        Seq::empty()
    };
    lemma_control_end(s, i);
    if control_at(s, i) && plan.removed.contains((i, control_end(s, i))) {
        let e = control_end(s, i);
        if care.whole {
            lemma_next_cut(s, i);
        }
        assert(head + Seq::<u8>::empty() + replanned(s, plan, reset, e) =~= head + replanned(
            s,
            plan,
            reset,
            e,
        ));
        e
    } else {
        let e = if care.whole {
            lemma_next_cut(s, i)
        } else {
            i + 1
        };
        let rest = replanned(s, plan, reset, e);
        if care.whole {
            lemma_unit_replanned(s, plan, reset, i, e, i + 1);
        } else {
            assert(s.subrange(i + 1, e) + rest =~= rest);
        }
        lemma_step_joined(s, i, e, head, rest);
        e
    }
}

#[verifier::rlimit(60)]
#[verifier::spinoff_prover]
proof fn lemma_replanned_recolors(s: Seq<u8>, plan: SgrPlan, mode: ResetMode, i: int, care: Care)
    requires
        care.drops,
        0 <= i <= s.len(),
        color_ranges(s, plan.removed, care),
        care.whole ==> cut_at(s, i) && at_cuts(s, plan.resets),
    ensures
        recolored(replanned(s, plan, echo_reset(mode), i), s.subrange(i, s.len() as int), care),
    decreases s.len() - i,
{
    let reset = echo_reset(mode);
    let none = Seq::<u8>::empty();
    let head = if plan.resets.contains(i) {
        reset
    } else {
        none
    };
    let left = s.subrange(i, s.len() as int);
    assert(recolored(head, none, care)) by {
        lemma_nothing(care);
        lemma_reset_is_sgr(mode);
        lemma_one_edit(Edit::Added(reset), care);
    }
    if i == s.len() {
        assert(left =~= none);
    } else {
        let e = lemma_planned_step(s, plan, reset, i, care);
        let u = s.subrange(i, e);
        let now = planned(s, plan, i, e);
        let more = s.subrange(e, s.len() as int);
        assert(recolored(now, u, care)) by {
            if control_at(s, i) && plan.removed.contains((i, control_end(s, i))) {
                lemma_one_edit(Edit::Dropped(u), care);
            } else {
                lemma_one_edit(Edit::Kept(u), care);
            }
        }
        lemma_replanned_recolors(s, plan, mode, e, care);
        recoloring_goes_on(head, none, now, u, care);
        recoloring_goes_on(head + now, none + u, replanned(s, plan, reset, e), more, care);
        assert(none + u + more =~= left);
    }
}

proof fn lemma_reset_is_sgr(mode: ResetMode)
    ensures
        one_sgr(echo_reset(mode)),
{
}

/// Taking the colors of a prompt off its command drops SGR sequences and adds
/// a reset; all other bytes stay.
pub proof fn prompts_lose_colors_only(s: Seq<u8>, before: Seq<u8>, mode: ResetMode, care: Care)
    requires
        care.drops,
        care.whole ==> sound(s),
    ensures
        recolored(without_prompt_colors(s, before, mode), s, care),
{
    if sgr_plan(s, before).removed.len() == 0 {
        unchanged_text_is_recolored(s, care);
    } else {
        if care.whole {
            lemma_cut_ends(s);
            lemma_plan_cuts(s, prompt_line(before), 0);
        }
        lemma_plan_color(s, shown_at(s, 0), prompt_line(before), 0, care);
        lemma_replanned_recolors(s, sgr_plan(s, before), mode, 0, care);
        assert(s.subrange(0, s.len() as int) =~= s);
    }
}

proof fn lemma_echo_recolors(st: Stream, s: Seq<u8>, care: Care)
    requires
        tidy(st.native),
        care.drops,
        care.whole ==> sound(s),
    ensures
        recolored(st.echo_output(s), s, care),
        tidy(st.after_echo(s).native),
        same_pending(st, st.after_echo(s)),
{
    let body = without_prompt_colors(s, st.tail, st.reset_mode());
    prompts_lose_colors_only(s, st.tail, st.reset_mode(), care);
    lemma_overlay_end(st);
    lemma_added(st.overlay_end(), care);
    recoloring_goes_on(st.overlay_end(), Seq::empty(), body, s, care);
    assert(Seq::<u8>::empty() + s =~= s);
    lemma_rendition_tidy(st.native, tokens_of(st.echo_output(s)));
}

proof fn lemma_shown_pending(st: Stream, text: Seq<u8>)
    ensures
        same_pending(st, st.after_all_shown(text)),
        st.after_all_shown(text).native == st.native,
    decreases text.len(),
{
    if text.len() > 0 {
        lemma_shown_pending(st, text.drop_last());
    }
}

proof fn lemma_observed_pending(st: Stream, s: Seq<u8>)
    ensures
        same_pending(st, st.observed(s)),
        st.observed(s).native == st.native,
{
    let start = if disables_paste(tokens_of(s)) {
        Stream { echoing: false, ..st }
    } else {
        st
    };
    lemma_shown_pending(start, visible(s));
}

pub proof fn lemma_settles_recolors(st: Stream, s: Seq<u8>, out: Seq<u8>, end: Stream, care: Care)
    requires
        tidy(st.native),
        settles(st, s, out, end),
        care.whole ==> sound(s),
    ensures
        recolored(out, s, care),
        tidy(end.native),
        same_pending(st, end),
{
    let (o, mid) = choose|o: Seq<u8>, mid: Stream| #[trigger]
        output_run(st, s, o, mid) && out == o + at_prompt(mid.observed(s)).0 && end == at_prompt(
            mid.observed(s),
        ).1;
    output_changes_colors_only(st, s, o, mid, care);
    lemma_observed_pending(mid, s);
    lemma_overlay_end(mid.observed(s));
    lemma_nothing(care);
    assert(sgrs(at_prompt(mid.observed(s)).0));
    lemma_more_added(o, s, at_prompt(mid.observed(s)).0, care);
}

proof fn lemma_shown_offsets(s: Seq<u8>, i: int)
    requires
        0 <= i,
    ensures
        forall|k: int|
            0 <= k < shown_at(s, i).len() ==> 0 <= (#[trigger] shown_at(s, i)[k]).1 < s.len(),
    decreases s.len() - i,
{
    if i < s.len() {
        lemma_control_end(s, i);
        if control_at(s, i) {
            lemma_shown_offsets(s, control_end(s, i));
            assert(shown_at(s, i) == shown_at(s, control_end(s, i)));
        } else {
            let e = text_unit_end(s, i);
            let unit = Seq::new((e - i) as nat, |k: int| (s[i + k], i + k));
            let rest = shown_at(s, e);
            lemma_shown_offsets(s, e);
            assert(shown_at(s, i) =~= unit + rest);
            assert forall|k: int| 0 <= k < (unit + rest).len() implies 0 <= (
            #[trigger] (unit + rest)[k]).1 < s.len() by {
                if k >= unit.len() {
                    assert((unit + rest)[k] == rest[k - unit.len()]);
                }
            }
        }
    }
}

proof fn lemma_echo_up_to_lf(s: Seq<u8>, goes_on: bool, i: int)
    ensures
        echo_up_to_lf(s, shown_at(s, 0), goes_on, i) matches Some(n) ==> 0 < n <= s.len(),
    decreases shown_at(s, 0).len() - i,
{
    let v = shown_at(s, 0);
    let end = shown_break(v, i);
    lemma_shown_offsets(s, 0);
    if 0 <= i <= v.len() && i <= end {
        if end < v.len() {
            assert(0 <= v[end].1 < s.len());
            lemma_echo_up_to_lf(s, goes_on, end + 1);
        }
    }
}

proof fn lemma_echo_len(s: Seq<u8>, before: Seq<u8>)
    ensures
        echo_len(s, before) matches Some(n) ==> 0 < n <= s.len(),
{
    lemma_echo_up_to_cr(s, before, 0);
    lemma_echo_up_to_lf(s, prompt_line(before), 0);
}

proof fn lemma_live_split(s: Seq<u8>, echoing: bool, alternate: bool)
    ensures
        0 <= live_split(s, echoing, alternate) <= s.len(),
{
    lemma_open_control(s);
    lemma_stream_split(s);
}

/// `b` is `a`, where some bytes of controls that are too long to wait for
/// stand as `^` and `?`.
pub open spec fn neutral(a: Seq<u8>, b: Seq<u8>) -> bool {
    &&& a.len() == b.len()
    &&& forall|k: int|
        0 <= k < a.len() ==> #[trigger] b[k] == a[k] || b[k] == 0x5e || b[k] == 0x3f
}

proof fn lemma_neutral_chain(s: Seq<u8>, i: int, last: int)
    requires
        0 <= i <= last < s.len(),
    ensures
        neutral(s, neutralized_chain(s, i, last)),
    decreases s.len() - i,
{
    lemma_scan_at(s, i);
    if i < last {
        if let Scan::Restart(at) = scan_at(s, i) {
            if at <= last {
                lemma_neutral_chain(neutralized_at(s, i), at, last);
            }
        }
    }
}

proof fn lemma_neutral_closed(s: Seq<u8>, i: int, root: Option<int>)
    ensures
        neutral(s, oversized_closed_from(s, i, root).0),
    decreases s.len() - i,
{
    if 0 <= i < s.len() {
        lemma_stateful_from(s, i);
        if let Some(start) = stateful_from(s, i) {
            lemma_scan_at(s, start);
            let first = chain_root(root, i, start);
            match scan_at(s, start) {
                Scan::Complete(end) => lemma_neutral_closed(s, end, None),
                Scan::Restart(at) => lemma_neutral_closed(s, at, Some(first)),
                Scan::Pending => {},
                Scan::Oversized => {
                    if 0 <= first <= start {
                        let next = neutralized_chain(s, first, start);
                        lemma_neutralized_chain_len(s, first, start);
                        lemma_neutral_chain(s, first, start);
                        lemma_neutral_closed(next, start + 1, None);
                    }
                },
            }
        }
    }
}

proof fn lemma_short_closed(s: Seq<u8>, i: int, root: Option<int>)
    requires
        s.len() <= MAX_INCOMPLETE_NON_STRING_ESCAPE_BYTES,
    ensures
        oversized_closed_from(s, i, root).0 == s,
    decreases s.len() - i,
{
    if 0 <= i < s.len() {
        lemma_stateful_from(s, i);
        if let Some(start) = stateful_from(s, i) {
            lemma_scan_at(s, start);
            lemma_short_scan(s, start);
            let first = chain_root(root, i, start);
            match scan_at(s, start) {
                Scan::Complete(end) => lemma_short_closed(s, end, None),
                Scan::Restart(at) => lemma_short_closed(s, at, Some(first)),
                _ => {},
            }
        }
    }
}

/// Of `given`, read as `s`, the first `n` bytes have become `out` and the rest
/// is kept.
pub open spec fn handed(
    given: Seq<u8>,
    s: Seq<u8>,
    n: int,
    out: Seq<u8>,
    kept: Seq<u8>,
    care: Care,
) -> bool {
    &&& 0 <= n <= s.len()
    &&& recolored(out, s.subrange(0, n), care)
    &&& kept == s.subrange(n, s.len() as int)
    &&& neutral(given, s)
    &&& given.len() <= MAX_INCOMPLETE_NON_STRING_ESCAPE_BYTES ==> s == given
    &&& care.whole ==> s == given && cut_at(s, n)
}

/// What a stream was given is handed out or kept back, and changes in colors
/// only. Where a control is too long to wait for, some of its bytes are made
/// harmless; text that is shorter than any such control is not touched.
pub open spec fn hands_out(given: Seq<u8>, out: Seq<u8>, kept: Seq<u8>, care: Care) -> bool {
    exists|s: Seq<u8>, n: int| #[trigger] handed(given, s, n, out, kept, care)
}

#[verifier::rlimit(60)]
#[verifier::spinoff_prover]
proof fn lemma_prompt_recolors(
    now: Stream,
    s: Seq<u8>,
    n: int,
    out: Seq<u8>,
    end: Stream,
    care: Care,
)
    requires
        tidy(now.native),
        0 <= n <= s.len(),
        prompt_run(now, s, n, out, end),
        care.drops,
        care.whole ==> fit(s, true) && cut_at(s, n),
    ensures
        hands_out(s, out, end.pending, care),
        tidy(end.native),
        end.filter == now.filter,
{
    let prompt = s.subrange(0, n);
    let rest = s.subrange(n, s.len() as int);
    let shown = now.echo_output(prompt);
    let mid = now.after_echo(prompt).observed(shown);
    let split = live_split(rest, false, mid.alternate);
    lemma_echo_recolors(now, prompt, care);
    lemma_observed_pending(now.after_echo(prompt), shown);
    lemma_live_split(rest, false, mid.alternate);
    if care.whole {
        lemma_fit_cut(s, n, true);
        lemma_well_formed_whole(rest);
        lemma_cut_ends(rest);
        lemma_cut_within(s, n, split);
    }
    let kept = keeping(mid, rest, split, true);
    let o = choose|o: Seq<u8>| #[trigger]
        settles(kept, rest.subrange(0, split), o, end) && out == shown + o;
    lemma_settles_recolors(kept, rest.subrange(0, split), o, end, care);
    recoloring_goes_on(shown, prompt, o, rest.subrange(0, split), care);
    assert(prompt + rest.subrange(0, split) =~= s.subrange(0, n + split));
    assert(kept.pending =~= s.subrange(n + split, s.len() as int));
    assert(handed(s, s, n + split, out, end.pending, care));
}

#[verifier::rlimit(60)]
#[verifier::spinoff_prover]
proof fn lemma_whole_recolors(now: Stream, s: Seq<u8>, out: Seq<u8>, end: Stream, care: Care)
    requires
        tidy(now.native),
        now.pending.len() == 0,
        whole_run(now, s, out, end),
        now.live ==> care.drops,
        care.whole ==> fit(s, now.live),
    ensures
        hands_out(s, out, end.pending, care),
        tidy(end.native),
        end.filter == now.filter,
{
    reveal(whole_run);
    if care.whole {
        lemma_well_formed_whole(s);
        lemma_cut_ends(s);
    }
    if starts_echo(now, s) || (now.live && now.echoing) {
        lemma_echo_len(s, now.tail);
        if care.whole {
            lemma_echo_cut(s, now.tail);
        }
        match echo_len(s, now.tail) {
            Some(n) => lemma_prompt_recolors(now, s, n, out, end, care),
            None => {
                lemma_echo_recolors(now, s, care);
                lemma_observed_pending(now.after_echo(s), out);
                assert(s.subrange(0, s.len() as int) =~= s);
                assert(end.pending =~= s.subrange(s.len() as int, s.len() as int));
                assert(handed(s, s, s.len() as int, out, end.pending, care));
            },
        }
    } else {
        let split = if now.live {
            live_split(s, now.echoing, now.alternate)
        } else {
            stream_split(s)
        };
        lemma_live_split(s, now.echoing, now.alternate);
        lemma_stream_split(s);
        lemma_settles_recolors(keeping(now, s, split, false), s.subrange(0, split), out, end, care);
        assert(handed(s, s, split, out, end.pending, care));
    }
}

/// Reading a chunk with oversized controls made harmless changes nothing of
/// what is said.
proof fn lemma_handed_closed(given: Seq<u8>, out: Seq<u8>, kept: Seq<u8>, care: Care)
    requires
        hands_out(oversized_closed(given), out, kept, care),
        care.whole ==> oversized_closed(given) == given,
    ensures
        hands_out(given, out, kept, care),
{
    let g = oversized_closed(given);
    lemma_oversized_closed_len(given);
    lemma_neutral_closed(given, 0, None);
    if given.len() <= MAX_INCOMPLETE_NON_STRING_ESCAPE_BYTES {
        lemma_short_closed(given, 0, None);
    }
    let (s, n) = choose|s: Seq<u8>, n: int| #[trigger] handed(g, s, n, out, kept, care);
    lemma_neutral_again(given, g, s);
    assert(handed(given, s, n, out, kept, care));
}

proof fn lemma_neutral_again(a: Seq<u8>, b: Seq<u8>, c: Seq<u8>)
    requires
        neutral(a, b),
        neutral(b, c),
    ensures
        neutral(a, c),
{
    assert forall|k: int| 0 <= k < a.len() implies #[trigger] c[k] == a[k] || c[k] == 0x5e || c[k]
        == 0x3f by {
        assert(b[k] == a[k] || b[k] == 0x5e || b[k] == 0x3f);
    }
}

/// What is kept of one part goes before the next.
#[verifier::rlimit(60)]
#[verifier::spinoff_prover]
pub proof fn lemma_hands_on(
    first: Seq<u8>,
    o: Seq<u8>,
    kept: Seq<u8>,
    next: Seq<u8>,
    more: Seq<u8>,
    left: Seq<u8>,
    care: Care,
)
    requires
        hands_out(first, o, kept, care),
        hands_out(kept + next, more, left, care),
    ensures
        hands_out(first + next, o + more, left, care),
{
    let (s, n) = choose|s: Seq<u8>, n: int| #[trigger] handed(first, s, n, o, kept, care);
    let (t, m) = choose|t: Seq<u8>, m: int| #[trigger]
        handed(kept + next, t, m, more, left, care);
    let a = s.subrange(0, n);
    let all = a + t;
    recoloring_goes_on(o, a, more, t.subrange(0, m), care);
    assert(a + t.subrange(0, m) =~= all.subrange(0, n + m));
    assert(t.subrange(m, t.len() as int) =~= all.subrange(n + m, all.len() as int));
    let given = first + next;
    assert forall|k: int| 0 <= k < given.len() implies #[trigger] all[k] == given[k] || all[k]
        == 0x5e || all[k] == 0x3f by {
        if k < n {
            assert(all[k] == s[k]);
            assert(s[k] == first[k] || s[k] == 0x5e || s[k] == 0x3f);
        } else {
            assert(all[k] == t[k - n]);
            assert(t[k - n] == (kept + next)[k - n] || t[k - n] == 0x5e || t[k - n] == 0x3f);
            if k < s.len() {
                assert((kept + next)[k - n] == s[k]);
                assert(s[k] == first[k] || s[k] == 0x5e || s[k] == 0x3f);
            }
        }
    }
    assert(s.subrange(0, n) + s.subrange(n, s.len() as int) =~= s);
    assert(a + (kept + next) =~= s + next);
    if care.whole {
        assert(rest_of(first, n) =~= kept);
        assert(all.subrange(0, n) =~= a);
        assert(rest_of(all, n) =~= t);
        lemma_sound_halves(t, m);
        lemma_sound_concat(a, t);
        lemma_cut_within(all, n, m);
    }
    assert(handed(given, all, n + m, o + more, left, care));
}

proof fn lemma_sound_halves(t: Seq<u8>, m: int)
    requires
        cut_at(t, m),
    ensures
        sound(t),
{
    assert(t.subrange(0, m) + rest_of(t, m) =~= t);
    lemma_sound_concat(t.subrange(0, m), rest_of(t, m));
}

#[verifier::rlimit(60)]
#[verifier::spinoff_prover]
pub proof fn lemma_combined_recolors(
    st: Stream,
    given: Seq<u8>,
    out: Seq<u8>,
    end: Stream,
    care: Care,
)
    requires
        tidy(st.native),
        st.pending.len() == 0,
        combined_run(st, given, out, end),
        st.live ==> care.drops,
        care.whole ==> fit(given, st.live),
    ensures
        hands_out(given, out, end.pending, care),
        tidy(end.native),
        end.filter == st.filter,
    decreases given.len(), 1int, 0int,
{
    let s = oversized_closed(given);
    let now = taking(st, s);
    lemma_oversized_closed_len(given);
    if care.whole {
        lemma_well_formed_whole(given);
    }
    if by_lines(now, s) {
        assert(s.subrange(0, s.len() as int) =~= s);
        assert(now.pending + s =~= s);
        if care.whole {
            lemma_cut_ends(s);
            lemma_fit_cut(s, 0, st.live);
            assert(s.subrange(0, 0) =~= now.pending);
        }
        lemma_pieces_recolor(now, s, 0, out, end, care);
    } else {
        lemma_whole_recolors(now, s, out, end, care);
    }
    lemma_handed_closed(given, out, end.pending, care);
}

proof fn lemma_line_recolors(st: Stream, line: Seq<u8>, out: Seq<u8>, end: Stream, care: Care)
    requires
        tidy(st.native),
        if st.pending.len() == 0 {
            combined_run(st, line, out, end)
        } else {
            kept_run(st, line, out, end)
        },
        care.drops,
        care.whole ==> fit(st.pending, st.live) && fit(line, st.live),
    ensures
        hands_out(st.pending + line, out, end.pending, care),
        tidy(end.native),
        end.filter == st.filter,
    decreases line.len(), 2int, 0int,
{
    let given = st.pending + line;
    if st.pending.len() == 0 {
        lemma_combined_recolors(st, line, out, end, care);
        assert(given =~= line);
    } else {
        let s = oversized_closed(given);
        if care.whole {
            lemma_fit_concat(st.pending, line, st.live);
            lemma_well_formed_whole(given);
        }
        lemma_whole_recolors(
            taking(Stream { pending: Seq::empty(), ..st }, s),
            s,
            out,
            end,
            care,
        );
        lemma_handed_closed(given, out, end.pending, care);
    }
}

/// What is kept of fit text is fit.
pub proof fn lemma_kept_fit(
    given: Seq<u8>,
    out: Seq<u8>,
    kept: Seq<u8>,
    care: Care,
    live: bool,
)
    requires
        care.whole,
        fit(given, live),
        hands_out(given, out, kept, care),
    ensures
        fit(kept, live),
{
    let (s, n) = choose|s: Seq<u8>, n: int| #[trigger] handed(given, s, n, out, kept, care);
    lemma_fit_cut(given, n, live);
}

#[verifier::rlimit(60)]
#[verifier::spinoff_prover]
proof fn lemma_pieces_recolor(
    st: Stream,
    s: Seq<u8>,
    from: int,
    out: Seq<u8>,
    end: Stream,
    care: Care,
)
    requires
        tidy(st.native),
        pieces_run(st, s, from, out, end),
        care.drops,
        care.whole ==> fit(st.pending, st.live) && fit(
            s.subrange(from, s.len() as int),
            st.live,
        ),
    ensures
        0 <= from < s.len(),
        hands_out(st.pending + s.subrange(from, s.len() as int), out, end.pending, care),
        tidy(end.native),
        end.filter == st.filter,
    decreases s.len(), 0int, s.len() - from,
{
    let rest = s.subrange(from, s.len() as int);
    lemma_line_break_from(rest, 0);
    match first_line_end(rest) {
        Some(to) => {
            let line = rest.subrange(0, to);
            let left = s.subrange(from + to, s.len() as int);
            assert(rest.subrange(to, rest.len() as int) =~= left);
            if care.whole {
                lemma_cut_ends(rest);
                lemma_break_cut(rest, 0);
                lemma_fit_cut(rest, to, st.live);
            }
            let (o, mid) = choose|o: Seq<u8>, mid: Stream| #[trigger]
                gives(o, mid) && (if st.pending.len() == 0 {
                    combined_run(st, line, o, mid)
                } else {
                    kept_run(st, line, o, mid)
                }) && begins_with(out, o) && pieces_run(mid, s, from + to, behind(out, o), end);
            let more = behind(out, o);
            if st.pending.len() == 0 {
                lemma_combined_settings(st, line, o, mid);
            } else {
                lemma_kept_settings(st, line, o, mid);
            }
            lemma_line_recolors(st, line, o, mid, care);
            if care.whole {
                lemma_fit_concat(st.pending, line, st.live);
                lemma_kept_fit(st.pending + line, o, mid.pending, care, st.live);
            }
            lemma_pieces_recolor(mid, s, from + to, more, end, care);
            lemma_hands_on(st.pending + line, o, mid.pending, left, more, end.pending, care);
            assert(st.pending + line + left =~= st.pending + rest);
            assert(o + more =~= out);
        },
        None => lemma_line_recolors(st, rest, out, end, care),
    }
}

/// Colors may change in any way: SGR sequences are added and dropped.
pub open spec fn changing() -> Care {
    Care { whole: false, drops: true }
}

/// What a stream lets through of a chunk is handed out or kept back, and
/// changes in colors only.
pub proof fn pushing_changes_colors_only(st: Stream, input: Seq<u8>, out: Seq<u8>, end: Stream)
    requires
        tidy(st.native),
        pushes(st, input, out, end),
    ensures
        tidy(end.native),
        match incoming(st.filter, input).0 {
            Some(bytes) => hands_out(
                filtered(incoming(st.filter, input).1, st.pending + bytes).0,
                out,
                end.pending,
                changing(),
            ),
            None => out.len() == 0 && end.pending == st.pending,
        },
{
    let (taken, filter) = incoming(st.filter, input);
    if let Some(bytes) = taken {
        let (through, mode) = filtered(filter, st.pending + bytes);
        lemma_combined_recolors(
            Stream { pending: Seq::empty(), filter: mode, ..st },
            through,
            out,
            end,
            changing(),
        );
    }
}

/// Showing the echo that is kept changes colors only.
pub proof fn showing_echo_changes_colors_only(st: Stream, out: Seq<u8>, end: Stream, care: Care)
    requires
        tidy(st.native),
        shows_echo(st, out, end),
        care.whole ==> well_formed(st.pending),
    ensures
        tidy(end.native),
        hands_out(st.pending, out, end.pending, care),
        end.filter == st.filter,
{
    let echo = kept_echo(st);
    let p = st.pending;
    lemma_open_control(p);
    lemma_cut_char_in_range(p);
    if care.whole {
        lemma_cut_ends(p);
        lemma_well_formed_whole(p);
    }
    if echo.len() == 0 {
        lemma_nothing(care);
        assert(p.subrange(0, 0) =~= Seq::<u8>::empty());
        assert(p.subrange(0, p.len() as int) =~= p);
        assert(handed(p, p, 0, out, end.pending, care));
    } else {
        let n = flushable_len(p);
        lemma_settles_recolors(
            Stream { pending: p.subrange(n, p.len() as int), ..st },
            echo,
            out,
            end,
            care,
        );
        assert(handed(p, p, n, out, end.pending, care));
    }
}

/// The end of a stream hands out what was kept, with open controls made
/// harmless, and changes colors only.
pub proof fn finishing_changes_colors_only(st: Stream, out: Seq<u8>, end: Stream, care: Care)
    requires
        tidy(st.native),
        finishes(st, out, end),
        care.whole ==> well_formed(left_over(st)),
    ensures
        tidy(end.native),
        recolored(out, left_over(st), care),
        end.pending.len() == 0,
        end.filter is Normal,
{
    let rest = left_over(st);
    let cut = or_all(rest, cut_char_start(rest));
    lemma_cut_char_in_range(rest);
    if care.whole {
        lemma_well_formed_whole(rest);
        assert(rest.subrange(0, cut) =~= rest);
        assert(rest.subrange(cut, rest.len() as int) =~= Seq::<u8>::empty());
    }
    let start = Stream {
        pending: Seq::empty(),
        filter: OversizedStringControlMode::Normal,
        ..st
    };
    let (o, mid) = choose|o: Seq<u8>, mid: Stream| #[trigger]
        output_run(start, rest.subrange(0, cut), o, mid) && ({
            let body = o + rest.subrange(cut, rest.len() as int);
            if st.live {
                out == body + mid.overlay_end() && end == mid.bare()
            } else {
                out == body && end == mid
            }
        });
    output_changes_colors_only(start, rest.subrange(0, cut), o, mid, care);
    let body = o + rest.subrange(cut, rest.len() as int);
    lemma_more_kept(o, rest.subrange(0, cut), rest.subrange(cut, rest.len() as int), care);
    assert(rest.subrange(0, cut) + rest.subrange(cut, rest.len() as int) =~= rest);
    lemma_overlay_end(mid);
    lemma_more_added(body, rest, mid.overlay_end(), care);
}

} // verus!
