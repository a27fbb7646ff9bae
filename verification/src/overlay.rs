//! Which style wins where rules lie over each other: later ones over earlier
//! ones, but for bytes that an exclusive rule has taken.

use vstd::prelude::*;

use crate::benchmark::EntryView;
use crate::compiled::CompiledView;
use crate::config::RuleView;
use crate::highlight::{painted_by, progress, styles_from, MatchIssue, Progress};
use crate::matching::{RunView, Span};
use crate::paint::{char_ceil, char_floor, unguarded, Paint};
use crate::style::Style;

verus! {

/// A style laid over another: a color that it has replaces, one that it does not
/// have leaves the color below, and attributes add up.
pub proof fn later_colors_replace_and_attributes_add(a: Style, b: Style)
    ensures
        b.foreground is Some ==> a.merged(b).foreground == b.foreground,
        b.foreground is None ==> a.merged(b).foreground == a.foreground,
        b.background is Some ==> a.merged(b).background == b.background,
        b.background is None ==> a.merged(b).background == a.background,
        a.merged(b).bold <==> a.bold || b.bold,
        a.merged(b).italic <==> a.italic || b.italic,
        a.merged(b).underline <==> a.underline || b.underline,
        a.merged(b).blink <==> a.blink || b.blink,
        a.merged(b).invert <==> a.invert || b.invert,
        a.merged(b).strike <==> a.strike || b.strike,
{
}

/// A span is widened to whole characters and no further: over the continuation
/// bytes, 80 to BF, before its start and behind its end.
pub proof fn spans_are_widened_to_characters(s: Seq<u8>, i: int)
    requires
        0 <= i <= s.len(),
    ensures
        0 <= char_floor(s, i) <= i,
        i < s.len() ==> forall|k: int|
            char_floor(s, i) < k <= i ==> 0x80 <= #[trigger] s[k] <= 0xbf,
        0 < char_floor(s, i) < s.len() ==> !(0x80 <= s[char_floor(s, i)] <= 0xbf),
        i == s.len() ==> char_floor(s, i) == i,
        i <= char_ceil(s, i) <= s.len(),
        forall|k: int| i <= k < char_ceil(s, i) ==> 0x80 <= #[trigger] s[k] <= 0xbf,
        char_ceil(s, i) < s.len() ==> !(0x80 <= s[char_ceil(s, i)] <= 0xbf),
{
    lemma_floor(s, i);
    lemma_ceil(s, i);
}

proof fn lemma_floor(s: Seq<u8>, i: int)
    requires
        0 <= i <= s.len(),
    ensures
        0 <= char_floor(s, i) <= i,
        i < s.len() ==> forall|k: int|
            char_floor(s, i) < k <= i ==> 0x80 <= #[trigger] s[k] <= 0xbf,
        0 < char_floor(s, i) < s.len() ==> !(0x80 <= s[char_floor(s, i)] <= 0xbf),
        i == s.len() ==> char_floor(s, i) == i,
    decreases i,
{
    if 0 < i < s.len() && 0x80 <= s[i] <= 0xbf {
        lemma_floor(s, i - 1);
    }
}

proof fn lemma_ceil(s: Seq<u8>, i: int)
    requires
        0 <= i <= s.len(),
    ensures
        i <= char_ceil(s, i) <= s.len(),
        forall|k: int| i <= k < char_ceil(s, i) ==> 0x80 <= #[trigger] s[k] <= 0xbf,
        char_ceil(s, i) < s.len() ==> !(0x80 <= s[char_ceil(s, i)] <= 0xbf),
    decreases s.len() - i,
{
    if i < s.len() && 0x80 <= s[i] <= 0xbf {
        lemma_ceil(s, i + 1);
    }
}

/// A style that a rule asks for, over whole characters.
pub struct Stroke {
    pub from: int,
    pub to: int,
    pub style: Style,
    pub exclusive: bool,
    /// It lies within the text and is not empty.
    pub valid: bool,
}

/// The two have a byte in common.
pub open spec fn meet(a: Stroke, b: Stroke) -> bool {
    a.from < a.to && b.from < b.to && a.from < b.to && b.from < a.to
}

/// Stroke `j` is laid: it lies within the text, and no byte of it belongs to an
/// exclusive stroke that was laid before.
pub open spec fn laid(strokes: Seq<Stroke>, j: int) -> bool
    decreases j,
{
    &&& 0 <= j < strokes.len()
    &&& strokes[j].valid
    &&& forall|i: int|
        0 <= i < j && laid(strokes, i) && (#[trigger] strokes[i]).exclusive ==> !meet(
            strokes[i],
            strokes[j],
        )
}

/// Stroke `j` is laid over byte `k`.
pub open spec fn laid_over(strokes: Seq<Stroke>, j: int, k: int) -> bool {
    laid(strokes, j) && strokes[j].from <= k < strokes[j].to
}

/// Byte `k` has the style that the strokes give it: each color is that of the
/// last stroke over it that has such a color, and an attribute is on where some
/// stroke over it has it.
pub open spec fn worn(style: Style, strokes: Seq<Stroke>, k: int) -> bool {
    &&& forall|j: int| #[trigger]
        laid_over(strokes, j, k) && strokes[j].style.foreground is Some && (forall|i: int|
            j < i && #[trigger] laid_over(strokes, i, k) ==> strokes[i].style.foreground is None)
            ==> style.foreground == strokes[j].style.foreground
    &&& style.foreground is Some ==> exists|j: int| #[trigger]
        laid_over(strokes, j, k) && strokes[j].style.foreground == style.foreground
    &&& forall|j: int| #[trigger]
        laid_over(strokes, j, k) && strokes[j].style.background is Some && (forall|i: int|
            j < i && #[trigger] laid_over(strokes, i, k) ==> strokes[i].style.background is None)
            ==> style.background == strokes[j].style.background
    &&& style.background is Some ==> exists|j: int| #[trigger]
        laid_over(strokes, j, k) && strokes[j].style.background == style.background
    &&& style.bold <==> exists|j: int| #[trigger] laid_over(strokes, j, k) && strokes[j].style.bold
    &&& style.italic <==> exists|j: int| #[trigger]
        laid_over(strokes, j, k) && strokes[j].style.italic
    &&& style.underline <==> exists|j: int| #[trigger]
        laid_over(strokes, j, k) && strokes[j].style.underline
    &&& style.blink <==> exists|j: int| #[trigger]
        laid_over(strokes, j, k) && strokes[j].style.blink
    &&& style.invert <==> exists|j: int| #[trigger]
        laid_over(strokes, j, k) && strokes[j].style.invert
    &&& style.strike <==> exists|j: int| #[trigger]
        laid_over(strokes, j, k) && strokes[j].style.strike
}

proof fn lemma_laid_before(strokes: Seq<Stroke>, x: Stroke, j: int)
    requires
        0 <= j < strokes.len(),
    ensures
        laid(strokes.push(x), j) == laid(strokes, j),
    decreases j,
{
    let all = strokes.push(x);
    assert(all[j] == strokes[j]);
    if laid(strokes, j) {
        assert forall|i: int| 0 <= i < j && laid(all, i) && (#[trigger] all[i]).exclusive implies !meet(
            all[i],
            all[j],
        ) by {
            lemma_laid_before(strokes, x, i);
            assert(strokes[i] == all[i]);
        }
    }
    if laid(all, j) {
        assert forall|i: int|
            0 <= i < j && laid(strokes, i) && (#[trigger] strokes[i]).exclusive implies !meet(
            strokes[i],
            strokes[j],
        ) by {
            lemma_laid_before(strokes, x, i);
            assert(strokes[i] == all[i]);
        }
    }
}

/// What is painted is what the strokes give, and the guarded bytes are those of
/// the exclusive strokes that were laid.
pub open spec fn shows_strokes(paint: Paint, strokes: Seq<Stroke>) -> bool {
    &&& paint.guarded.len() == paint.styles.len()
    &&& forall|k: int| 0 <= k < paint.styles.len() ==> worn(#[trigger] paint.styles[k], strokes, k)
    &&& forall|k: int|
        0 <= k < paint.styles.len() ==> (#[trigger] paint.guarded[k] <==> exists|j: int| #[trigger]
            laid_over(strokes, j, k) && strokes[j].exclusive)
}

/// What a rule asks for with a span.
pub open spec fn stroke_of(s: Seq<u8>, span: Span, exclusive: bool) -> Stroke {
    Stroke {
        from: char_floor(s, span.start),
        to: char_ceil(s, span.end),
        style: span.style,
        exclusive,
        valid: 0 <= span.start < span.end <= s.len(),
    }
}

proof fn lemma_over_before(strokes: Seq<Stroke>, x: Stroke, j: int, k: int)
    requires
        j != strokes.len(),
    ensures
        laid_over(strokes.push(x), j, k) == laid_over(strokes, j, k),
        0 <= j < strokes.len() ==> strokes.push(x)[j] == strokes[j],
{
    if 0 <= j < strokes.len() {
        lemma_laid_before(strokes, x, j);
    }
}

/// A stroke that is not over a byte leaves its style.
proof fn lemma_worn_apart(style: Style, strokes: Seq<Stroke>, x: Stroke, k: int)
    requires
        worn(style, strokes, k),
        !laid_over(strokes.push(x), strokes.len() as int, k),
    ensures
        worn(style, strokes.push(x), k),
{
    let all = strokes.push(x);
    assert forall|j: int| #[trigger] laid_over(all, j, k) == laid_over(strokes, j, k) by {
        if j != strokes.len() {
            lemma_over_before(strokes, x, j, k);
        }
    }
    assert forall|j: int| #[trigger] laid_over(strokes, j, k) implies laid_over(all, j, k) && all[j]
        == strokes[j] by {
        lemma_over_before(strokes, x, j, k);
    }
    lemma_worn_same(style, strokes, all, k);
}

proof fn lemma_worn_same(style: Style, a: Seq<Stroke>, b: Seq<Stroke>, k: int)
    requires
        worn(style, a, k),
        forall|j: int| #[trigger] laid_over(b, j, k) == laid_over(a, j, k),
        forall|j: int| #[trigger] laid_over(a, j, k) ==> laid_over(b, j, k) && b[j] == a[j],
    ensures
        worn(style, b, k),
{
    assert forall|j: int| #[trigger]
        laid_over(b, j, k) && b[j].style.foreground is Some && (forall|i: int|
            j < i && #[trigger] laid_over(b, i, k) ==> b[i].style.foreground
                is None) implies style.foreground
        == b[j].style.foreground by {
        assert(laid_over(a, j, k));
        assert forall|i: int| j < i && #[trigger] laid_over(a, i, k) implies a[i].style.foreground is
        None by {
            assert(laid_over(b, i, k));
        }
    }
    assert forall|j: int| #[trigger]
        laid_over(b, j, k) && b[j].style.background is Some && (forall|i: int|
            j < i && #[trigger] laid_over(b, i, k) ==> b[i].style.background
                is None) implies style.background
        == b[j].style.background by {
        assert(laid_over(a, j, k));
        assert forall|i: int| j < i && #[trigger] laid_over(a, i, k) implies a[i].style.background is
        None by {
            assert(laid_over(b, i, k));
        }
    }
    if style.foreground is Some {
        let j = choose|j: int| #[trigger]
            laid_over(a, j, k) && a[j].style.foreground == style.foreground;
        assert(laid_over(b, j, k));
    }
    if style.background is Some {
        let j = choose|j: int| #[trigger]
            laid_over(a, j, k) && a[j].style.background == style.background;
        assert(laid_over(b, j, k));
    }
    assert(forall|j: int| #[trigger] laid_over(b, j, k) ==> laid_over(a, j, k) && b[j] == a[j]);
}

/// A stroke that is laid over a byte is laid over its style.
#[verifier::rlimit(40)]
proof fn lemma_worn_over(style: Style, strokes: Seq<Stroke>, x: Stroke, k: int)
    requires
        worn(style, strokes, k),
        laid_over(strokes.push(x), strokes.len() as int, k),
    ensures
        worn(style.merged(x.style), strokes.push(x), k),
{
    let all = strokes.push(x);
    let n = strokes.len() as int;
    let mixed = style.merged(x.style);
    later_colors_replace_and_attributes_add(style, x.style);
    assert(all[n] == x);
    assert forall|j: int|
        j != n implies #[trigger] laid_over(all, j, k) == laid_over(strokes, j, k) by {
        lemma_over_before(strokes, x, j, k);
    }
    assert forall|j: int| #[trigger] laid_over(strokes, j, k) implies laid_over(all, j, k) && all[j]
        == strokes[j] && j < n by {
        lemma_over_before(strokes, x, j, k);
    }
    assert forall|j: int| #[trigger]
        laid_over(all, j, k) && all[j].style.foreground is Some && (forall|i: int|
            j < i && #[trigger] laid_over(all, i, k) ==> all[i].style.foreground
                is None) implies mixed.foreground
        == all[j].style.foreground by {
        if j != n {
            assert(laid_over(strokes, j, k));
            assert(laid_over(all, n, k));
            assert forall|i: int|
                j < i && #[trigger] laid_over(strokes, i, k) implies strokes[i].style.foreground is
            None by {
                assert(laid_over(all, i, k));
            }
        }
    }
    assert forall|j: int| #[trigger]
        laid_over(all, j, k) && all[j].style.background is Some && (forall|i: int|
            j < i && #[trigger] laid_over(all, i, k) ==> all[i].style.background
                is None) implies mixed.background
        == all[j].style.background by {
        if j != n {
            assert(laid_over(strokes, j, k));
            assert(laid_over(all, n, k));
            assert forall|i: int|
                j < i && #[trigger] laid_over(strokes, i, k) implies strokes[i].style.background is
            None by {
                assert(laid_over(all, i, k));
            }
        }
    }
    if mixed.foreground is Some && x.style.foreground is None {
        let j = choose|j: int| #[trigger]
            laid_over(strokes, j, k) && strokes[j].style.foreground == style.foreground;
        assert(laid_over(all, j, k));
    }
    if mixed.background is Some && x.style.background is None {
        let j = choose|j: int| #[trigger]
            laid_over(strokes, j, k) && strokes[j].style.background == style.background;
        assert(laid_over(all, j, k));
    }
    assert(forall|j: int| #[trigger]
        laid_over(all, j, k) ==> j == n || (laid_over(strokes, j, k) && all[j] == strokes[j]));
}

/// One more span.
proof fn lemma_one_stroke(
    paint: Paint,
    strokes: Seq<Stroke>,
    s: Seq<u8>,
    span: Span,
    exclusive: bool,
)
    requires
        paint.fits(s),
        shows_strokes(paint, strokes),
    ensures
        paint.with_span(s, span, exclusive).fits(s),
        shows_strokes(
            paint.with_span(s, span, exclusive),
            strokes.push(stroke_of(s, span, exclusive)),
        ),
{
    let x = stroke_of(s, span, exclusive);
    let all = strokes.push(x);
    let n = strokes.len() as int;
    let after = paint.with_span(s, span, exclusive);
    assert(all[n] == x);
    if x.valid {
        spans_are_widened_to_characters(s, span.start);
        spans_are_widened_to_characters(s, span.end);
        assert(laid(all, n) == unguarded(paint.guarded, x.from, x.to)) by {
            if laid(all, n) {
                assert forall|k: int| x.from <= k < x.to implies !#[trigger] paint.guarded[k] by {
                    if paint.guarded[k] {
                        let j = choose|j: int| #[trigger]
                            laid_over(strokes, j, k) && strokes[j].exclusive;
                        lemma_laid_before(strokes, x, j);
                        assert(laid(all, j) && all[j] == strokes[j]);
                        assert(meet(all[j], all[n]));
                    }
                }
            } else {
                let i = choose|i: int|
                    0 <= i < n && laid(all, i) && (#[trigger] all[i]).exclusive && meet(
                        all[i],
                        all[n],
                    );
                lemma_laid_before(strokes, x, i);
                let k = if all[i].from >= x.from {
                    all[i].from
                } else {
                    x.from
                };
                assert(laid_over(strokes, i, k));
                assert(paint.guarded[k]);
            }
        }
    }
    assert forall|k: int| 0 <= k < after.styles.len() implies worn(
        #[trigger] after.styles[k],
        all,
        k,
    ) by {
        assert(worn(paint.styles[k], strokes, k));
        if laid_over(all, n, k) {
            lemma_worn_over(paint.styles[k], strokes, x, k);
        } else {
            lemma_worn_apart(paint.styles[k], strokes, x, k);
        }
    }
    assert forall|k: int| 0 <= k < after.styles.len() implies (#[trigger] after.guarded[k]
        <==> exists|j: int| #[trigger] laid_over(all, j, k) && all[j].exclusive) by {
        if after.guarded[k] {
            if paint.guarded[k] {
                let j = choose|j: int| #[trigger] laid_over(strokes, j, k) && strokes[j].exclusive;
                lemma_over_before(strokes, x, j, k);
                assert(laid_over(all, j, k) && all[j].exclusive);
            } else {
                assert(laid_over(all, n, k) && all[n].exclusive);
            }
        }
        if exists|j: int| #[trigger] laid_over(all, j, k) && all[j].exclusive {
            let j = choose|j: int| #[trigger] laid_over(all, j, k) && all[j].exclusive;
            if j != n {
                lemma_over_before(strokes, x, j, k);
                assert(laid_over(strokes, j, k) && strokes[j].exclusive);
                assert(paint.guarded[k]);
            }
        }
    }
}

/// What a rule asks for with its spans, in their order.
pub open spec fn strokes_of(s: Seq<u8>, spans: Seq<Span>, exclusive: bool) -> Seq<Stroke> {
    spans.map_values(|span: Span| stroke_of(s, span, exclusive))
}

proof fn lemma_more_strokes(
    paint: Paint,
    strokes: Seq<Stroke>,
    s: Seq<u8>,
    spans: Seq<Span>,
    exclusive: bool,
)
    requires
        paint.fits(s),
        shows_strokes(paint, strokes),
    ensures
        paint.with_spans(s, spans, exclusive).fits(s),
        shows_strokes(
            paint.with_spans(s, spans, exclusive),
            strokes + strokes_of(s, spans, exclusive),
        ),
    decreases spans.len(),
{
    if spans.len() == 0 {
        assert(strokes + strokes_of(s, spans, exclusive) =~= strokes);
    } else {
        let before = spans.drop_last();
        lemma_more_strokes(paint, strokes, s, before, exclusive);
        lemma_one_stroke(
            paint.with_spans(s, before, exclusive),
            strokes + strokes_of(s, before, exclusive),
            s,
            spans.last(),
            exclusive,
        );
        assert((strokes + strokes_of(s, before, exclusive)).push(
            stroke_of(s, spans.last(), exclusive),
        ) =~= strokes + strokes_of(s, spans, exclusive));
    }
}

proof fn lemma_blank_shows(len: nat)
    ensures
        shows_strokes(Paint::blank(len), Seq::empty()),
{
    let none = Seq::<Stroke>::empty();
    assert forall|j: int, k: int| !#[trigger] laid_over(none, j, k) by {}
    assert forall|k: int| 0 <= k < len implies worn(
        #[trigger] Paint::blank(len).styles[k],
        none,
        k,
    ) by {}
}

/// What the first rules ask for, given what each came to: rule by rule, and for
/// each rule span by span.
pub open spec fn asked(rules: Seq<CompiledView>, s: Seq<u8>, runs: Seq<RunView>) -> Seq<Stroke>
    decreases runs.len(),
{
    if runs.len() == 0 {
        Seq::empty()
    } else {
        asked(rules, s, runs.drop_last()) + strokes_of(
            s,
            runs.last().spans,
            rules[runs.len() - 1].rule.exclusive,
        )
    }
}

proof fn lemma_painted_shows(rules: Seq<CompiledView>, s: Seq<u8>, runs: Seq<RunView>)
    ensures
        painted_by(rules, s, runs).fits(s),
        shows_strokes(painted_by(rules, s, runs), asked(rules, s, runs)),
    decreases runs.len(),
{
    if runs.len() == 0 {
        lemma_blank_shows(s.len());
    } else {
        lemma_painted_shows(rules, s, runs.drop_last());
        lemma_more_strokes(
            painted_by(rules, s, runs.drop_last()),
            asked(rules, s, runs.drop_last()),
            s,
            runs.last().spans,
            rules[runs.len() - 1].rule.exclusive,
        );
    }
}

/// The style of a byte, with nothing set where there is none.
pub open spec fn style_or_none(style: Option<Style>) -> Style {
    match style {
        Some(style) => style,
        None => Style {
            foreground: None,
            background: None,
            bold: false,
            blink: false,
            invert: false,
            italic: false,
            strike: false,
            underline: false,
        },
    }
}

/// Where rules lie over each other, each byte of a text has the colors of the
/// last rule over it that has them, and the attributes of all of them; bytes that
/// an exclusive rule has taken are closed to later rules. A byte has a style
/// only where one is set.
pub proof fn later_rules_lie_over_earlier_ones(
    rules: Seq<CompiledView>,
    s: Seq<u8>,
    runs: Seq<RunView>,
    styles: Seq<Option<Style>>,
    k: int,
)
    requires
        styles_from(rules, s, runs) == Ok::<Seq<Option<Style>>, MatchIssue>(styles),
        0 <= k < s.len(),
    ensures
        styles.len() == s.len(),
        worn(style_or_none(styles[k]), asked(rules, s, runs), k),
        styles[k] is Some ==> styles[k] != Some(style_or_none(None)),
{
    lemma_painted_shows(rules, s, runs);
    let paint = painted_by(rules, s, runs);
    assert(styles == paint.result());
    assert(worn(paint.styles[k], asked(rules, s, runs), k));
}

/// What the first `n` rules of a stream ask for, given what each came to. Rules
/// that are out of use ask for nothing.
pub open spec fn asked_live(
    before: Progress,
    rules: Seq<CompiledView>,
    s: Seq<u8>,
    seen: Seq<(RunView, u128)>,
    n: int,
) -> Seq<Stroke>
    decreases n,
{
    if n <= 0 {
        Seq::empty()
    } else {
        let earlier = asked_live(before, rules, s, seen, n - 1);
        if before.after_rules(rules, s, seen, n - 1).disabled.contains(rules[n - 1].rule) {
            earlier
        } else {
            earlier + strokes_of(s, seen[n - 1].0.spans, rules[n - 1].rule.exclusive)
        }
    }
}

proof fn lemma_live_shows(
    before: Progress,
    rules: Seq<CompiledView>,
    s: Seq<u8>,
    seen: Seq<(RunView, u128)>,
    n: int,
)
    requires
        before.paint == Paint::blank(s.len()),
    ensures
        before.after_rules(rules, s, seen, n).paint.fits(s),
        shows_strokes(
            before.after_rules(rules, s, seen, n).paint,
            asked_live(before, rules, s, seen, n),
        ),
    decreases n,
{
    if n <= 0 {
        lemma_blank_shows(s.len());
    } else {
        lemma_live_shows(before, rules, s, seen, n - 1);
        lemma_more_strokes(
            before.after_rules(rules, s, seen, n - 1).paint,
            asked_live(before, rules, s, seen, n - 1),
            s,
            seen[n - 1].0.spans,
            rules[n - 1].rule.exclusive,
        );
    }
}

/// In a stream, too, later rules lie over earlier ones.
pub proof fn later_rules_lie_over_earlier_ones_live(
    rules: Seq<CompiledView>,
    s: Seq<u8>,
    timing: Seq<EntryView>,
    disabled: Seq<RuleView>,
    seen: Seq<(RunView, u128)>,
    k: int,
)
    requires
        0 <= k < s.len(),
    ensures
        ({
            let start = progress(s.len(), timing, disabled);
            let styles = start.after_rules(rules, s, seen, rules.len() as int).paint.result();
            &&& styles.len() == s.len()
            &&& worn(
                style_or_none(styles[k]),
                asked_live(start, rules, s, seen, rules.len() as int),
                k,
            )
            &&& styles[k] is Some ==> styles[k] != Some(style_or_none(None))
        }),
{
    let start = progress(s.len(), timing, disabled);
    lemma_live_shows(start, rules, s, seen, rules.len() as int);
    let paint = start.after_rules(rules, s, seen, rules.len() as int).paint;
    assert(worn(
        paint.styles[k],
        asked_live(start, rules, s, seen, rules.len() as int),
        k,
    ));
}

} // verus!
