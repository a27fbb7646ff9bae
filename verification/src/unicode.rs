//! Valid UTF-8 stays valid UTF-8: colors go between characters, never into
//! one.

use vstd::prelude::*;
use vstd::utf8::{
    decode_utf8, decode_utf8_encode_utf8, encode_utf8, encode_utf8_valid_utf8, is_char_boundary,
    is_char_boundary_iff_not_is_continuation_byte, is_char_boundary_start_end_of_seq,
    length_of_first_scalar, pop_first_scalar, valid_first_scalar, valid_utf8, valid_utf8_concat,
    valid_utf8_split,
};

use crate::arrival::{fit, lemma_well_formed_cut, lemma_well_formed_whole, well_formed};
use crate::controls::{
    control_at, control_end, lemma_control_end, text_unit_end, tokens_of, visible,
};
use crate::emit::{ended, pen, started, wanted, Inks, Pen};
use crate::highlight::{
    highlighted_with, highlighting, styles_keep_characters_whole, styles_possible, text_result,
    HighlighterView, MatchIssue,
};
use crate::paint::whole_characters;
use crate::prompt_sgr::ResetMode;
use crate::recolor::{
    color_edits, edited, finishing_changes_colors_only, handed, lemma_edits_concat,
    lemma_kept_fit, recolored, unedited, Care, Edit,
};
use crate::sgr::SgrState;
use crate::stream_model::{begins_with, behind, finishes, gives, left_over, pushes, Stream};
use crate::stream_text::{
    at_rest, careful_adding, careful_changing, fed, lemma_chunk_underway, lemma_edits_show,
    lemma_streamed_underway, lemma_streamed_whole, streamed,
    underway, whole_chunks, Feed,
};
use crate::style::Style;
use crate::units::{closed_to, lemma_cut_closed, lemma_sound_closed, rest_of};
use crate::utf8::{announced_width, char_width_at, continuation, second_fits};
use crate::weave::{
    change, lemma_shown_step, lemma_style_changes, lemma_unit, lemma_woven, one_sgr,
    renditions_stay_tidy, sgrs, shown_from, tidy, woven,
};

verus! {

/// A character of valid UTF-8 is well-formed.
proof fn lemma_scalar_width(x: Seq<u8>)
    requires
        x.len() > 0,
        valid_first_scalar(x),
    ensures
        !continuation(x[0]),
        x[0] < 0x80 ==> length_of_first_scalar(x) == 1 && char_width_at(x, 0) == 0,
        x[0] >= 0x80 ==> length_of_first_scalar(x) == char_width_at(x, 0) == announced_width(x[0]),
        length_of_first_scalar(x) <= x.len(),
{
    let a = x[0];
    if a >= 0x80 {
        let b = x[1];
        if length_of_first_scalar(x) == 2 {
            assert(0xc0 <= a <= 0xc1 ==> (((a & 0x1f) as u32) << 6 | (b & 0x3f) as u32) < 0x80)
                by (bit_vector);
        } else if length_of_first_scalar(x) == 3 {
            let c = x[2];
            assert(a == 0xe0 && 0x80 <= b < 0xa0 ==> (((a & 0x0f) as u32) << 12 | ((b
                & 0x3f) as u32) << 6 | (c & 0x3f) as u32) < 0x800) by (bit_vector);
            assert(a == 0xed && 0xa0 <= b <= 0xbf ==> 0xd800 <= (((a & 0x0f) as u32) << 12 | ((b
                & 0x3f) as u32) << 6 | (c & 0x3f) as u32) <= 0xdfff) by (bit_vector);
        } else {
            let c = x[2];
            let d = x[3];
            assert(a == 0xf0 && 0x80 <= b < 0x90 ==> (((a & 0x07) as u32) << 18 | ((b
                & 0x3f) as u32) << 12 | ((c & 0x3f) as u32) << 6 | (d & 0x3f) as u32) < 0x10000)
                by (bit_vector);
            assert(a == 0xf4 && 0x90 <= b <= 0xbf || 0xf5 <= a <= 0xf7 ==> (((a
                & 0x07) as u32) << 18 | ((b & 0x3f) as u32) << 12 | ((c & 0x3f) as u32) << 6 | (d
                & 0x3f) as u32) > 0x10ffff) by (bit_vector);
        }
        assert(second_fits(a, b));
    }
}

/// A continuation byte in valid UTF-8 belongs to a character before it.
proof fn lemma_lead_before(x: Seq<u8>, k: int) -> (p: int)
    requires
        valid_utf8(x),
        0 <= k < x.len(),
        continuation(x[k]),
    ensures
        0 <= p < k < p + announced_width(x[p]),
    decreases x.len(),
{
    let n = length_of_first_scalar(x);
    lemma_scalar_width(x);
    if k < n {
        0
    } else {
        let rest = pop_first_scalar(x);
        assert(rest[k - n] == x[k]);
        let p = lemma_lead_before(rest, k - n);
        assert(rest[p] == x[n + p]);
        n + p
    }
}

/// Valid UTF-8 can be cut before a character.
proof fn lemma_boundary(x: Seq<u8>, n: int)
    requires
        valid_utf8(x),
        0 <= n <= x.len(),
        n < x.len() ==> !continuation(x[n]),
    ensures
        valid_utf8(x.subrange(0, n)),
        valid_utf8(rest_of(x, n)),
{
    is_char_boundary_start_end_of_seq(x);
    if n < x.len() {
        is_char_boundary_iff_not_is_continuation_byte(x, n);
    }
    assert(is_char_boundary(x, n));
    valid_utf8_split(x, n);
}

/// What stands between two characters of valid UTF-8 is valid.
proof fn lemma_stretch(x: Seq<u8>, a: int, b: int)
    requires
        valid_utf8(x),
        0 <= a <= b <= x.len(),
        a < x.len() ==> !continuation(x[a]),
        b < x.len() ==> !continuation(x[b]),
    ensures
        valid_utf8(x.subrange(a, b)),
{
    let y = x.subrange(0, b);
    lemma_boundary(x, b);
    lemma_boundary(y, a);
    assert(rest_of(y, a) =~= x.subrange(a, b));
}

/// Valid UTF-8 can be cut where whole units end.
proof fn lemma_closed_boundary(x: Seq<u8>, n: int)
    requires
        valid_utf8(x),
        0 <= n <= x.len(),
        closed_to(x, n),
    ensures
        valid_utf8(x.subrange(0, n)),
        valid_utf8(rest_of(x, n)),
{
    if n < x.len() && continuation(x[n]) {
        let p = lemma_lead_before(x, n);
        assert(p + announced_width(x[p]) <= n);
    }
    lemma_boundary(x, n);
}

/// What goes on behind valid UTF-8 is valid.
proof fn lemma_valid_behind(a: Seq<u8>, b: Seq<u8>)
    requires
        valid_utf8(a),
        valid_utf8(a + b),
    ensures
        valid_utf8(b),
    decreases a.len(),
{
    if a.len() == 0 {
        assert(a + b =~= b);
    } else {
        lemma_scalar_width(a);
        let n = length_of_first_scalar(a);
        assert((a + b)[0] == a[0]);
        assert(pop_first_scalar(a + b) =~= pop_first_scalar(a) + b);
        lemma_valid_behind(pop_first_scalar(a), b);
    }
}

proof fn lemma_ascii_valid(t: Seq<u8>)
    requires
        forall|k: int| 0 <= k < t.len() ==> #[trigger] t[k] < 0x80,
    ensures
        valid_utf8(t),
    decreases t.len(),
{
    if t.len() > 0 {
        assert(t[0] < 0x80);
        assert(valid_first_scalar(t));
        lemma_ascii_valid(pop_first_scalar(t));
    }
}

proof fn lemma_sgr_valid(t: Seq<u8>)
    requires
        one_sgr(t),
    ensures
        valid_utf8(t),
{
    assert forall|k: int| 0 <= k < t.len() implies #[trigger] t[k] < 0x80 by {
        assert(2 <= k < t.len() - 1 || k == 0 || k == 1 || t[k] == t.last());
    }
    lemma_ascii_valid(t);
}

proof fn lemma_sgrs_valid(t: Seq<u8>)
    requires
        sgrs(t),
    ensures
        valid_utf8(t),
    decreases t.len(),
{
    if t.len() > 0 {
        let n = choose|n: int|
            3 <= n <= t.len() && #[trigger] one_sgr(t.subrange(0, n)) && sgrs(
                t.subrange(n, t.len() as int),
            );
        lemma_sgr_valid(t.subrange(0, n));
        lemma_sgrs_valid(t.subrange(n, t.len() as int));
        valid_utf8_concat(t.subrange(0, n), t.subrange(n, t.len() as int));
        assert(t.subrange(0, n) + t.subrange(n, t.len() as int) =~= t);
    }
}

/// From `i` on, no control sequence ends within a character.
pub open spec fn uncut_from(s: Seq<u8>, i: int) -> bool
    decreases s.len() - i,
{
    if !(0 <= i < s.len()) {
        true
    } else if control_at(s, i) {
        proof {
            lemma_control_end(s, i);
        }
        let end = control_end(s, i);
        (end < s.len() ==> !continuation(s[end])) && uncut_from(s, end)
    } else {
        uncut_from(s, text_unit_end(s, i))
    }
}

/// No control sequence ends within a character.
pub open spec fn uncut(s: Seq<u8>) -> bool {
    uncut_from(s, 0)
}

/// Behind a character of valid UTF-8 the next one begins.
proof fn lemma_next_character(s: Seq<u8>, i: int)
    requires
        valid_utf8(s),
        0 <= i < s.len(),
        !continuation(s[i]),
    ensures
        i < text_unit_end(s, i) <= s.len(),
        text_unit_end(s, i) < s.len() ==> !continuation(s[text_unit_end(s, i)]),
        valid_utf8(s.subrange(i, text_unit_end(s, i))),
{
    let rest = rest_of(s, i);
    lemma_boundary(s, i);
    lemma_scalar_width(rest);
    assert(rest[0] == s[i]);
    let e = text_unit_end(s, i);
    assert(e == i + length_of_first_scalar(rest));
    assert(pop_first_scalar(rest) =~= rest_of(s, e));
    assert(valid_utf8(rest_of(s, e)));
    if e < s.len() {
        lemma_scalar_width(rest_of(s, e));
        assert(rest_of(s, e)[0] == s[e]);
    }
    lemma_stretch(s, i, e);
}

proof fn lemma_three_valid(a: Seq<u8>, b: Seq<u8>, c: Seq<u8>)
    requires
        valid_utf8(a),
        valid_utf8(b),
        valid_utf8(c),
    ensures
        valid_utf8(a + b + c),
{
    valid_utf8_concat(a, b);
    valid_utf8_concat(a + b, c);
}

#[verifier::rlimit(60)]
#[verifier::spinoff_prover]
proof fn lemma_woven_valid(
    s: Seq<u8>,
    i: int,
    inks: Inks,
    styles: Seq<Option<Style>>,
    pos: int,
    at: Pen,
)
    requires
        valid_utf8(s),
        0 <= i <= s.len(),
        i < s.len() ==> !continuation(s[i]),
        uncut_from(s, i),
        shown_from(s, i, pos),
        whole_characters(visible(s), styles),
        styles.len() == visible(s).len(),
        tidy(at.native),
        valid_utf8(at.out),
    ensures
        valid_utf8(woven(s, i, inks, styles, pos, at).out),
        tidy(woven(s, i, inks, styles, pos, at).native),
    decreases s.len() - i,
{
    if i < s.len() {
        lemma_shown_step(s, i, pos);
        lemma_style_changes(at.active, inks.color, at.native, inks.reset);
        if control_at(s, i) {
            lemma_control_end(s, i);
            let e = control_end(s, i);
            let u = s.subrange(i, e);
            let more = started(at.active, inks.color);
            lemma_stretch(s, i, e);
            lemma_sgrs_valid(more);
            lemma_three_valid(at.out, u, more);
            renditions_stay_tidy(at.native, u);
            lemma_woven_valid(s, e, inks, styles, pos, at.after_control(inks, u));
        } else {
            lemma_next_character(s, i);
            let e = text_unit_end(s, i);
            let u = s.subrange(i, e);
            let c = change(at, inks, s[i], wanted(styles, pos, inks.reset));
            lemma_unit(s, i, pos, inks, styles, at, e - i);
            lemma_sgrs_valid(c);
            lemma_three_valid(at.out, c, u);
            lemma_woven_valid(
                s,
                e,
                inks,
                styles,
                pos + (e - i),
                at.after_text(inks, u, styles, pos),
            );
        }
    }
}

/// Highlighting valid UTF-8 gives valid UTF-8, whatever the rules come to,
/// unless a control sequence ends within a character, as ESC does before one of
/// several bytes.
pub proof fn highlighted_text_stays_valid(h: HighlighterView, input: Seq<u8>, out: Seq<u8>)
    requires
        valid_utf8(input),
        uncut(input),
        highlighting(h, input, Ok(out)),
    ensures
        valid_utf8(out),
{
    let result = choose|styles: Result<Seq<Option<Style>>, MatchIssue>| #[trigger]
        styles_possible(h.rules, visible(input), styles) && Ok::<Seq<u8>, MatchIssue>(out)
            == highlighted_with(h, input, styles);
    styles_keep_characters_whole(h.rules, visible(input), result);
    let styles = result->Ok_0;
    let inks = Inks { live: false, color: h.color, reset: ResetMode::Full };
    let at = pen(SgrState::initial(), None);
    let done = at.after_tokens(inks, tokens_of(input), styles);
    lemma_woven(input, at, inks, styles);
    assert(visible(input).subrange(0, visible(input).len() as int) =~= visible(input));
    if input.len() > 0 {
        lemma_scalar_width(input);
    }
    lemma_woven_valid(input, 0, inks, styles, 0, at);
    lemma_style_changes(done.active, inks.color, done.native, inks.reset);
    lemma_sgrs_valid(ended(done.active, done.native, inks.reset));
    valid_utf8_concat(done.out, ended(done.active, done.native, inks.reset));
}

/// Where no control sequence ends within a character, highlighting text gives
/// the styled bytes, as text.
pub proof fn highlighted_strings_are_the_styled_bytes(
    h: HighlighterView,
    text: Seq<char>,
    out: Seq<u8>,
)
    requires
        uncut(encode_utf8(text)),
        highlighting(h, encode_utf8(text), Ok(out)),
    ensures
        text_result(text, Ok(out)) == Ok::<Seq<char>, MatchIssue>(decode_utf8(out)),
        encode_utf8(decode_utf8(out)) == out,
{
    encode_utf8_valid_utf8(text);
    highlighted_text_stays_valid(h, encode_utf8(text), out);
    decode_utf8_encode_utf8(out);
}

/// The first `k` steps start from valid UTF-8 and lead to valid UTF-8.
proof fn lemma_edits_valid(edits: Seq<Edit>, care: Care, k: int)
    requires
        care.whole,
        color_edits(edits, care),
        valid_utf8(unedited(edits)),
        0 <= k <= edits.len(),
    ensures
        valid_utf8(unedited(edits.take(k))),
        valid_utf8(edited(edits.take(k))),
    decreases k,
{
    let first = edits.take(k);
    let s = unedited(edits);
    let a = unedited(first);
    lemma_edits_concat(first, edits.skip(k));
    assert(first + edits.skip(k) =~= edits);
    lemma_edits_show(first, care);
    lemma_sound_closed(a);
    assert(closed_to(s, a.len() as int)) by {
        assert(s.subrange(0, a.len() as int) =~= a);
        lemma_cut_closed(s, a.len() as int);
    }
    lemma_closed_boundary(s, a.len() as int);
    assert(s.subrange(0, a.len() as int) =~= a);
    if k > 0 {
        let before = edits.take(k - 1);
        let last = edits[k - 1];
        assert(first.drop_last() =~= before);
        assert(first.last() == last);
        assert(last.is_color(care));
        lemma_edits_valid(edits, care, k - 1);
        lemma_valid_behind(unedited(before), last.before());
        if let Edit::Added(t) = last {
            lemma_sgr_valid(t);
        }
        valid_utf8_concat(edited(before), last.after());
    }
}

/// A change of colors that leaves units whole leaves valid UTF-8 valid.
pub proof fn careful_recoloring_stays_valid(out: Seq<u8>, s: Seq<u8>, care: Care)
    requires
        care.whole,
        recolored(out, s, care),
        valid_utf8(s),
    ensures
        valid_utf8(out),
{
    reveal(recolored);
    let edits = choose|edits: Seq<Edit>| #[trigger]
        color_edits(edits, care) && edited(edits) == out && unedited(edits) == s;
    lemma_edits_valid(edits, care, edits.len() as int);
    assert(edits.take(edits.len() as int) =~= edits);
}

/// However well-formed, valid UTF-8 is cut into chunks, also within a
/// character: a stream that nobody types at gives valid UTF-8 for each.
#[verifier::rlimit(60)]
#[verifier::spinoff_prover]
pub proof fn streams_give_valid_text(
    st: Stream,
    feeds: Seq<Feed>,
    out: Seq<u8>,
    mid: Stream,
    input: Seq<u8>,
    more: Seq<u8>,
    end: Stream,
    x: Seq<u8>,
)
    requires
        at_rest(st),
        !st.live,
        streamed(st, feeds, out, mid),
        pushes(mid, input, more, end),
        well_formed(x),
        valid_utf8(x),
        x.len() <= usize::MAX,
        begins_with(x, fed(feeds) + input),
    ensures
        valid_utf8(out),
        valid_utf8(more),
{
    let care = careful_adding();
    let got = fed(feeds).len() as int;
    let all = fed(feeds) + input;
    assert(fed(feeds) =~= all.subrange(0, got));
    assert(fed(feeds) =~= x.subrange(0, got));
    assert(input =~= all.subrange(got, got + input.len()));
    assert(input =~= x.subrange(got, got + input.len()));
    let p = lemma_streamed_underway(st, feeds, out, mid, x);
    assert(Feed::Chunk(input).leads(mid, more, end)) by {
        reveal(Feed::leads);
    }
    let q = lemma_chunk_underway(mid, x, got, p, out, input, more, end);
    reveal(underway);
    lemma_cut_closed(x, p);
    lemma_closed_boundary(x, p);
    lemma_cut_closed(x, q);
    lemma_closed_boundary(x, q);
    careful_recoloring_stays_valid(out, x.subrange(0, p), care);
    careful_recoloring_stays_valid(out + more, x.subrange(0, q), care);
    lemma_valid_behind(out, more);
}

/// The end of such a stream gives valid UTF-8 too.
#[verifier::rlimit(60)]
#[verifier::spinoff_prover]
pub proof fn streams_end_in_valid_text(
    st: Stream,
    feeds: Seq<Feed>,
    out: Seq<u8>,
    mid: Stream,
    rest: Seq<u8>,
    end: Stream,
)
    requires
        at_rest(st),
        !st.live,
        streamed(st, feeds, out, mid),
        finishes(mid, rest, end),
        well_formed(fed(feeds)),
        valid_utf8(fed(feeds)),
        fed(feeds).len() <= usize::MAX,
    ensures
        valid_utf8(rest),
{
    let x = fed(feeds);
    let care = careful_adding();
    assert(x =~= x.subrange(0, x.len() as int));
    let p = lemma_streamed_underway(st, feeds, out, mid, x);
    reveal(underway);
    lemma_well_formed_cut(x, p);
    assert(mid.pending =~= rest_of(x, p));
    lemma_well_formed_whole(mid.pending);
    assert(left_over(mid) == mid.pending);
    finishing_changes_colors_only(mid, rest, end, care);
    lemma_cut_closed(x, p);
    lemma_closed_boundary(x, p);
    careful_recoloring_stays_valid(rest, mid.pending, care);
}

proof fn lemma_whole_chunks_valid(st: Stream, feeds: Seq<Feed>, out: Seq<u8>, end: Stream)
    requires
        at_rest(st),
        whole_chunks(feeds, st.live),
        streamed(st, feeds, out, end),
        valid_utf8(fed(feeds)),
        fed(feeds).len() <= usize::MAX,
    ensures
        valid_utf8(out),
        fit(end.pending, st.live),
        valid_utf8(end.pending),
        tidy(end.native),
        end.filter is Normal,
{
    let x = fed(feeds);
    let care = careful_changing();
    lemma_streamed_whole(st, feeds, out, end);
    lemma_kept_fit(x, out, end.pending, care, st.live);
    let (s, n) = choose|s: Seq<u8>, n: int| #[trigger] handed(x, s, n, out, end.pending, care);
    lemma_cut_closed(x, n);
    lemma_closed_boundary(x, n);
    careful_recoloring_stays_valid(out, x.subrange(0, n), care);
}

/// Where every chunk is well-formed text, a stream gives valid UTF-8 for valid
/// UTF-8, whether someone types at it or not.
#[verifier::rlimit(60)]
#[verifier::spinoff_prover]
pub proof fn live_streams_give_valid_text(
    st: Stream,
    feeds: Seq<Feed>,
    out: Seq<u8>,
    mid: Stream,
    input: Seq<u8>,
    more: Seq<u8>,
    end: Stream,
)
    requires
        at_rest(st),
        whole_chunks(feeds, st.live),
        streamed(st, feeds, out, mid),
        valid_utf8(fed(feeds)),
        fit(input, st.live),
        valid_utf8(input),
        pushes(mid, input, more, end),
        fed(feeds).len() + input.len() <= usize::MAX,
    ensures
        valid_utf8(out),
        valid_utf8(more),
{
    let all = feeds.push(Feed::Chunk(input));
    assert(all.drop_last() =~= feeds);
    assert(all.last() == Feed::Chunk(input));
    assert(Feed::Chunk(input).leads(mid, more, end)) by {
        reveal(Feed::leads);
    }
    assert forall|k: int| 0 <= k < all.len() implies fit((#[trigger] all[k]).bytes(), st.live) by {
        if k < feeds.len() {
            assert(all[k] == feeds[k]);
        }
    }
    assert((out + more).subrange(0, out.len() as int) =~= out);
    assert(behind(out + more, out) =~= more);
    assert(gives(out, mid));
    assert(streamed(st, all, out + more, end));
    valid_utf8_concat(fed(feeds), input);
    lemma_whole_chunks_valid(st, feeds, out, mid);
    lemma_whole_chunks_valid(st, all, out + more, end);
    lemma_valid_behind(out, more);
}

/// The end of such a stream gives valid UTF-8 too.
#[verifier::rlimit(60)]
#[verifier::spinoff_prover]
pub proof fn live_streams_end_in_valid_text(
    st: Stream,
    feeds: Seq<Feed>,
    out: Seq<u8>,
    mid: Stream,
    rest: Seq<u8>,
    end: Stream,
)
    requires
        at_rest(st),
        whole_chunks(feeds, st.live),
        streamed(st, feeds, out, mid),
        valid_utf8(fed(feeds)),
        finishes(mid, rest, end),
        fed(feeds).len() <= usize::MAX,
    ensures
        valid_utf8(rest),
{
    let care = careful_changing();
    lemma_whole_chunks_valid(st, feeds, out, mid);
    lemma_well_formed_whole(mid.pending);
    assert(left_over(mid) == mid.pending);
    finishing_changes_colors_only(mid, rest, end, care);
    careful_recoloring_stays_valid(rest, mid.pending, care);
}

} // verus!
