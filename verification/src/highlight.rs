//! Highlighting complete output.

use vstd::prelude::*;
use vstd::string::*;
use vstd::utf8::*;

use crate::benchmark::{nanos_since, recorded, BenchmarkReport, EntryView};
use crate::bytes::copy_range;
use crate::compiled::{
    compile_rules, compiled_rules, compiled_views, CompiledRule, CompiledView, HighlightError,
    HighlightIssue,
};
use crate::config::{rule_views, PrismConfig, RuleSpec, RuleView};
use crate::controls::{
    text_tokens_are_the_visible_text, tokenize_ansi, tokens_of, visible, visible_bytes,
};
use crate::emit::{emit_highlighted, highlighted, same_style};
use crate::lossy::{decode_lossy, lossy_text, utf8_text};
use crate::matching::{match_rule, run_possible, runs_without_failure_agree, RunView};
use crate::paint::{
    lemma_result_whole, spans_keep_characters_whole, whole_characters, Canvas, Paint,
};
use crate::prompt_sgr::ResetMode;
use crate::sgr::{NativeSgrState, SgrState};
use crate::style::{ColorMode, Style};
use crate::terminal_text::{escape_untrusted, escaped};
use crate::text::{concat, concat3, copy_text};
use crate::unicode::{highlighted_strings_are_the_styled_bytes, uncut};

use std::time::Instant;

verus! {

/// A rule failed on a text.
#[derive(Clone, Debug)]
pub struct RuleMatchError {
    /// What the rule is called.
    pub description: String,
    /// What PCRE2 says.
    pub message: String,
}

/// The content of a [`RuleMatchError`].
pub struct MatchIssue {
    pub description: Seq<char>,
    pub message: Seq<char>,
}

impl View for RuleMatchError {
    type V = MatchIssue;

    open spec fn view(&self) -> MatchIssue {
        MatchIssue { description: self.description@, message: self.message@ }
    }
}

impl RuleMatchError {
    /// The error in words.
    pub fn text(&self) -> (r: String)
        ensures
            r@ == "rule '"@ + self@.description + "' match failed: "@ + self@.message,
    {
        let head = concat3("rule '", self.description.as_str(), "' match failed: ");
        concat(head.as_str(), self.message.as_str())
    }
}

/// A stretch of visible text that has one style.
#[derive(Clone, Debug)]
pub struct StyledSpan {
    pub text: String,
    /// Where it starts in the visible bytes.
    pub start: usize,
    /// Where it ends in the visible bytes.
    pub end: usize,
    pub style: Style,
}

/// The content of a [`StyledSpan`].
pub struct StretchView {
    pub text: Seq<char>,
    pub start: int,
    pub end: int,
    pub style: Style,
}

impl View for StyledSpan {
    type V = StretchView;

    open spec fn view(&self) -> StretchView {
        StretchView {
            text: self.text@,
            start: self.start as int,
            end: self.end as int,
            style: self.style,
        }
    }
}

pub open spec fn stretch_views(spans: Seq<StyledSpan>) -> Seq<StretchView> {
    spans.map_values(|s: StyledSpan| s@)
}

/// Rules ready for matching, and how styles are written.
#[derive(Clone, Debug)]
pub struct Highlighter {
    rules: Vec<CompiledRule>,
    color_mode: ColorMode,
}

/// The content of a [`Highlighter`].
pub struct HighlighterView {
    pub rules: Seq<CompiledView>,
    pub color: ColorMode,
}

impl View for Highlighter {
    type V = HighlighterView;

    closed spec fn view(&self) -> HighlighterView {
        HighlighterView { rules: compiled_views(self.rules@), color: self.color_mode }
    }
}

/// What the first rules lay over a text, given what each came to.
pub open spec fn painted_by(rules: Seq<CompiledView>, s: Seq<u8>, runs: Seq<RunView>) -> Paint
    decreases runs.len(),
{
    if runs.len() == 0 {
        Paint::blank(s.len())
    } else {
        painted_by(rules, s, runs.drop_last()).with_spans(
            s,
            runs.last().spans,
            rules[runs.len() - 1].rule.exclusive,
        )
    }
}

/// The first rules can come to `runs`, all but the last without failing.
pub open spec fn runs_possible(rules: Seq<CompiledView>, s: Seq<u8>, runs: Seq<RunView>) -> bool {
    &&& runs.len() <= rules.len()
    &&& forall|k: int|
        0 <= k < runs.len() ==> run_possible(rules[k].regex, s, rules[k].target, #[trigger] runs[k])
    &&& forall|k: int| 0 <= k < runs.len() - 1 ==> (#[trigger] runs[k]).error is None
}

/// What the rules lay over a text, given what they came to up to the first
/// failure.
pub open spec fn styles_from(rules: Seq<CompiledView>, s: Seq<u8>, runs: Seq<RunView>) -> Result<
    Seq<Option<Style>>,
    MatchIssue,
> {
    if runs.len() > 0 && runs.last().error is Some {
        Err(
            MatchIssue {
                description: escaped(rules[runs.len() - 1].rule.description),
                message: escaped(runs.last().error->Some_0),
            },
        )
    } else {
        Ok(painted_by(rules, s, runs).result())
    }
}

/// The rules can come to `result` on a text.
pub open spec fn styles_possible(
    rules: Seq<CompiledView>,
    s: Seq<u8>,
    result: Result<Seq<Option<Style>>, MatchIssue>,
) -> bool {
    exists|runs: Seq<RunView>| #[trigger]
        runs_possible(rules, s, runs) && (result is Ok ==> runs.len() == rules.len()) && result
            == styles_from(rules, s, runs)
}

proof fn lemma_painted_by(rules: Seq<CompiledView>, s: Seq<u8>, runs: Seq<RunView>)
    ensures
        painted_by(rules, s, runs).fits(s),
        painted_by(rules, s, runs).snapped(s),
    decreases runs.len(),
{
    if runs.len() > 0 {
        lemma_painted_by(rules, s, runs.drop_last());
        spans_keep_characters_whole(
            painted_by(rules, s, runs.drop_last()),
            s,
            runs.last().spans,
            rules[runs.len() - 1].rule.exclusive,
        );
    }
}

/// Whatever the rules come to, each visible byte has a style or none, and bytes
/// of one character are alike.
pub proof fn styles_keep_characters_whole(
    rules: Seq<CompiledView>,
    s: Seq<u8>,
    result: Result<Seq<Option<Style>>, MatchIssue>,
)
    requires
        styles_possible(rules, s, result),
        result is Ok,
    ensures
        result->Ok_0.len() == s.len(),
        whole_characters(s, result->Ok_0),
{
    let runs = choose|runs: Seq<RunView>| #[trigger]
        runs_possible(rules, s, runs) && (result is Ok ==> runs.len() == rules.len()) && result
            == styles_from(rules, s, runs);
    lemma_painted_by(rules, s, runs);
    lemma_result_whole(painted_by(rules, s, runs), s);
}

/// Which styles the rules give is settled by the rules and the text, unless a
/// rule fails.
pub proof fn styles_without_failure_agree(
    rules: Seq<CompiledView>,
    s: Seq<u8>,
    a: Seq<Option<Style>>,
    b: Seq<Option<Style>>,
)
    requires
        styles_possible(rules, s, Ok(a)),
        styles_possible(rules, s, Ok(b)),
    ensures
        a == b,
{
    let x = choose|runs: Seq<RunView>| #[trigger]
        runs_possible(rules, s, runs) && runs.len() == rules.len() && Ok::<
            Seq<Option<Style>>,
            MatchIssue,
        >(a) == styles_from(rules, s, runs);
    let y = choose|runs: Seq<RunView>| #[trigger]
        runs_possible(rules, s, runs) && runs.len() == rules.len() && Ok::<
            Seq<Option<Style>>,
            MatchIssue,
        >(b) == styles_from(rules, s, runs);
    assert forall|k: int| 0 <= k < rules.len() implies x[k] == y[k] by {
        assert(x[k].error is None) by {
            if k == rules.len() - 1 {
                assert(x[k] == x.last());
            }
        }
        assert(y[k].error is None) by {
            if k == rules.len() - 1 {
                assert(y[k] == y.last());
            }
        }
        runs_without_failure_agree(rules[k].regex, s, rules[k].target, x[k], y[k]);
    }
    assert(x =~= y);
}

/// A highlighter without rules gives no byte a style.
pub proof fn no_rules_give_no_styles(
    s: Seq<u8>,
    result: Result<Seq<Option<Style>>, MatchIssue>,
)
    requires
        styles_possible(Seq::empty(), s, result),
    ensures
        result == Ok::<Seq<Option<Style>>, MatchIssue>(Seq::new(s.len(), |k: int| None)),
{
    let rules = Seq::<CompiledView>::empty();
    let runs = choose|runs: Seq<RunView>| #[trigger]
        runs_possible(rules, s, runs) && (result is Ok ==> runs.len() == rules.len()) && result
            == styles_from(rules, s, runs);
    assert(painted_by(rules, s, runs).result() =~= Seq::new(s.len(), |k: int| None::<Style>));
}

pub open spec fn match_result(r: Result<Vec<Option<Style>>, RuleMatchError>) -> Result<
    Seq<Option<Style>>,
    MatchIssue,
> {
    match r {
        Ok(styles) => Ok(styles@),
        Err(error) => Err(error@),
    }
}

/// What highlighting `input` can give: the text with styles, or a failure.
pub open spec fn highlighting(
    h: HighlighterView,
    input: Seq<u8>,
    result: Result<Seq<u8>, MatchIssue>,
) -> bool {
    exists|styles: Result<Seq<Option<Style>>, MatchIssue>| #[trigger]
        styles_possible(h.rules, visible(input), styles) && result == highlighted_with(
            h,
            input,
            styles,
        )
}

/// `input` with styles on its visible bytes.
pub open spec fn highlighted_with(
    h: HighlighterView,
    input: Seq<u8>,
    styles: Result<Seq<Option<Style>>, MatchIssue>,
) -> Result<Seq<u8>, MatchIssue> {
    match styles {
        Ok(styles) => Ok(
            highlighted(tokens_of(input), styles, h.color, ResetMode::Full, SgrState::initial()),
        ),
        Err(issue) => Err(issue),
    }
}

/// What was highlighted, or the input where a rule failed.
pub open spec fn or_input(result: Result<Seq<u8>, MatchIssue>, input: Seq<u8>) -> Seq<u8> {
    match result {
        Ok(bytes) => bytes,
        Err(_) => input,
    }
}

/// Highlighting `input`, and leaving it as it is where a rule fails, can give
/// `out`.
pub open spec fn highlights_to(h: HighlighterView, input: Seq<u8>, out: Seq<u8>) -> bool {
    exists|result: Result<Seq<u8>, MatchIssue>| #[trigger]
        highlighting(h, input, result) && out == or_input(result, input)
}

/// Where highlighting succeeds once, it never gives anything but that or the
/// input.
pub proof fn highlights_are_settled_or_the_input(
    h: HighlighterView,
    input: Seq<u8>,
    tried: Seq<u8>,
    out: Seq<u8>,
)
    requires
        highlighting(h, input, Ok(tried)),
        highlights_to(h, input, out),
    ensures
        out == tried || out == input,
{
    let result = choose|result: Result<Seq<u8>, MatchIssue>| #[trigger]
        highlighting(h, input, result) && out == or_input(result, input);
    if let Ok(bytes) = result {
        highlights_without_failure_agree(h, input, tried, bytes);
    }
}

/// What highlighting gave, or the input unchanged where a rule failed.
pub fn bytes_or_input(tried: Result<Vec<u8>, RuleMatchError>, input: &[u8]) -> (r: Vec<u8>)
    ensures
        r@ == or_input(bytes_result(tried), input@),
{
    match tried {
        Ok(bytes) => bytes,
        Err(_) => {
            let copy = copy_range(input, 0, input.len());
            assert(copy@ =~= input@);
            copy
        },
    }
}

/// What highlighting gives is settled by the highlighter and the input, unless
/// a rule fails.
pub proof fn highlights_without_failure_agree(
    h: HighlighterView,
    input: Seq<u8>,
    a: Seq<u8>,
    b: Seq<u8>,
)
    requires
        highlighting(h, input, Ok(a)),
        highlighting(h, input, Ok(b)),
    ensures
        a == b,
{
    let x = choose|styles: Result<Seq<Option<Style>>, MatchIssue>| #[trigger]
        styles_possible(h.rules, visible(input), styles) && Ok::<Seq<u8>, MatchIssue>(a)
            == highlighted_with(h, input, styles);
    let y = choose|styles: Result<Seq<Option<Style>>, MatchIssue>| #[trigger]
        styles_possible(h.rules, visible(input), styles) && Ok::<Seq<u8>, MatchIssue>(b)
            == highlighted_with(h, input, styles);
    styles_without_failure_agree(h.rules, visible(input), x->Ok_0, y->Ok_0);
}

pub open spec fn bytes_result(r: Result<Vec<u8>, RuleMatchError>) -> Result<Seq<u8>, MatchIssue> {
    match r {
        Ok(bytes) => Ok(bytes@),
        Err(error) => Err(error@),
    }
}


/// How far matching a text has come: what is laid over it, the timing so far,
/// and the rules that are out of use.
pub struct Progress {
    pub paint: Paint,
    pub timing: Seq<EntryView>,
    pub disabled: Seq<RuleView>,
}

impl Progress {
    /// Behind a rule that came to `run` in `nanos` nanoseconds. A rule that
    /// failed is out of use from here on.
    pub open spec fn after(
        self,
        rule: CompiledView,
        s: Seq<u8>,
        run: RunView,
        nanos: u128,
    ) -> Progress {
        Progress {
            paint: self.paint.with_spans(s, run.spans, rule.rule.exclusive),
            timing: recorded(self.timing, rule.rule, nanos, run.count as usize, run.error),
            disabled: if run.error is Some {
                self.disabled.push(rule.rule)
            } else {
                self.disabled
            },
        }
    }

    /// Behind the first `n` rules, where `seen[k]` is what rule `k` came to and
    /// how long it took. Rules out of use are left out.
    pub open spec fn after_rules(
        self,
        rules: Seq<CompiledView>,
        s: Seq<u8>,
        seen: Seq<(RunView, u128)>,
        n: int,
    ) -> Progress
        decreases n,
    {
        if n <= 0 {
            self
        } else {
            let before = self.after_rules(rules, s, seen, n - 1);
            if before.disabled.contains(rules[n - 1].rule) {
                before
            } else {
                before.after(rules[n - 1], s, seen[n - 1].0, seen[n - 1].1)
            }
        }
    }

    /// Each rule in use can come to what was seen of it.
    pub open spec fn can_see(
        self,
        rules: Seq<CompiledView>,
        s: Seq<u8>,
        seen: Seq<(RunView, u128)>,
    ) -> bool {
        &&& seen.len() == rules.len()
        &&& forall|k: int|
            0 <= k < rules.len() && !self.after_rules(rules, s, seen, k).disabled.contains(
                rules[k].rule,
            ) ==> run_possible(rules[k].regex, s, rules[k].target, (#[trigger] seen[k]).0)
    }
}

/// The start of matching a text of `len` bytes.
pub open spec fn progress(len: nat, timing: Seq<EntryView>, disabled: Seq<RuleView>) -> Progress {
    Progress { paint: Paint::blank(len), timing, disabled }
}

/// Matching a text can go from `before` to `after`.
pub open spec fn can_become(
    rules: Seq<CompiledView>,
    s: Seq<u8>,
    before: Progress,
    after: Progress,
) -> bool {
    exists|seen: Seq<(RunView, u128)>| #[trigger]
        before.can_see(rules, s, seen) && after == before.after_rules(
            rules,
            s,
            seen,
            rules.len() as int,
        )
}

proof fn lemma_after_rules_prefix(
    p: Progress,
    rules: Seq<CompiledView>,
    s: Seq<u8>,
    seen: Seq<(RunView, u128)>,
    x: (RunView, u128),
    n: int,
)
    requires
        n <= seen.len(),
    ensures
        p.after_rules(rules, s, seen.push(x), n) == p.after_rules(rules, s, seen, n),
    decreases n,
{
    if n > 0 {
        lemma_after_rules_prefix(p, rules, s, seen, x, n - 1);
        assert(seen.push(x)[n - 1] == seen[n - 1]);
    }
}

proof fn lemma_after_rules_whole(
    p: Progress,
    rules: Seq<CompiledView>,
    s: Seq<u8>,
    seen: Seq<(RunView, u128)>,
    n: int,
)
    requires
        p.paint.fits(s),
        p.paint.snapped(s),
    ensures
        p.after_rules(rules, s, seen, n).paint.fits(s),
        p.after_rules(rules, s, seen, n).paint.snapped(s),
    decreases n,
{
    if n > 0 {
        lemma_after_rules_whole(p, rules, s, seen, n - 1);
        spans_keep_characters_whole(
            p.after_rules(rules, s, seen, n - 1).paint,
            s,
            seen[n - 1].0.spans,
            rules[n - 1].rule.exclusive,
        );
    }
}

/// Whatever the rules come to, each visible byte has a style or none, and bytes
/// of one character are alike.
pub proof fn live_styles_keep_characters_whole(
    rules: Seq<CompiledView>,
    s: Seq<u8>,
    before: Progress,
    after: Progress,
)
    requires
        can_become(rules, s, before, after),
        before.paint == Paint::blank(s.len()),
    ensures
        after.paint.result().len() == s.len(),
        whole_characters(s, after.paint.result()),
{
    let seen = choose|seen: Seq<(RunView, u128)>| #[trigger]
        before.can_see(rules, s, seen) && after == before.after_rules(
            rules,
            s,
            seen,
            rules.len() as int,
        );
    lemma_after_rules_whole(before, rules, s, seen, rules.len() as int);
    lemma_result_whole(after.paint, s);
}

proof fn lemma_disabled_grows(
    p: Progress,
    rules: Seq<CompiledView>,
    s: Seq<u8>,
    seen: Seq<(RunView, u128)>,
    n: int,
    m: int,
)
    requires
        0 <= n <= m,
    ensures
        p.after_rules(rules, s, seen, n).disabled.len() <= p.after_rules(
            rules,
            s,
            seen,
            m,
        ).disabled.len(),
    decreases m - n,
{
    if n < m {
        lemma_disabled_grows(p, rules, s, seen, n + 1, m);
    }
}

proof fn lemma_paints_agree(
    p: Progress,
    rules: Seq<CompiledView>,
    s: Seq<u8>,
    x: Seq<(RunView, u128)>,
    y: Seq<(RunView, u128)>,
    n: int,
)
    requires
        0 <= n <= rules.len(),
        p.can_see(rules, s, x),
        p.can_see(rules, s, y),
        p.after_rules(rules, s, x, rules.len() as int).disabled.len() == p.disabled.len(),
        p.after_rules(rules, s, y, rules.len() as int).disabled.len() == p.disabled.len(),
    ensures
        p.after_rules(rules, s, x, n).paint == p.after_rules(rules, s, y, n).paint,
        p.after_rules(rules, s, x, n).disabled == p.disabled,
        p.after_rules(rules, s, y, n).disabled == p.disabled,
    decreases n,
{
    if n > 0 {
        lemma_paints_agree(p, rules, s, x, y, n - 1);
        lemma_disabled_grows(p, rules, s, x, n, rules.len() as int);
        lemma_disabled_grows(p, rules, s, y, n, rules.len() as int);
        if !p.disabled.contains(rules[n - 1].rule) {
            let a = x[n - 1].0;
            let b = y[n - 1].0;
            runs_without_failure_agree(rules[n - 1].regex, s, rules[n - 1].target, a, b);
        }
    }
}

/// Which styles live output gets is settled by the rules, the rules out of use
/// and the text, unless a rule fails.
pub proof fn live_styles_without_failure_agree(
    rules: Seq<CompiledView>,
    s: Seq<u8>,
    before: Progress,
    a: Progress,
    b: Progress,
)
    requires
        can_become(rules, s, before, a),
        can_become(rules, s, before, b),
        a.disabled == before.disabled,
        b.disabled == before.disabled,
    ensures
        a.paint == b.paint,
{
    let x = choose|seen: Seq<(RunView, u128)>| #[trigger]
        before.can_see(rules, s, seen) && a == before.after_rules(
            rules,
            s,
            seen,
            rules.len() as int,
        );
    let y = choose|seen: Seq<(RunView, u128)>| #[trigger]
        before.can_see(rules, s, seen) && b == before.after_rules(
            rules,
            s,
            seen,
            rules.len() as int,
        );
    lemma_paints_agree(before, rules, s, x, y, rules.len() as int);
}

/// The stretches of the first `n` bytes: maximal runs of equal style.
pub open spec fn stretch_start(styles: Seq<Option<Style>>, n: int) -> int
    decreases n,
{
    if n <= 1 || styles[n - 1] != styles[n - 2] {
        n - 1
    } else {
        stretch_start(styles, n - 1)
    }
}

/// The styled stretches that end within the first `n` bytes of `s`.
pub open spec fn stretches(s: Seq<u8>, styles: Seq<Option<Style>>, n: int) -> Seq<StretchView>
    decreases n,
{
    if n <= 0 {
        Seq::empty()
    } else {
        let start = stretch_start(styles, n);
        if !(0 <= start < n) {
            Seq::empty()
        } else {
            let before = stretches(s, styles, start);
            match styles[n - 1] {
                Some(style) => before.push(
                    StretchView {
                        text: lossy_text(s.subrange(start, n)),
                        start,
                        end: n,
                        style,
                    },
                ),
                None => before,
            }
        }
    }
}

proof fn lemma_stretch_start(styles: Seq<Option<Style>>, n: int)
    requires
        0 < n <= styles.len(),
    ensures
        0 <= stretch_start(styles, n) < n,
        forall|k: int| stretch_start(styles, n) <= k < n ==> #[trigger] styles[k] == styles[n - 1],
    decreases n,
{
    if n > 1 && styles[n - 1] == styles[n - 2] {
        lemma_stretch_start(styles, n - 1);
    }
}

/// The stretches of visible text that have a style.
pub fn collect_styled_spans(visible: &[u8], styles: &[Option<Style>]) -> (r: Vec<StyledSpan>)
    requires
        styles@.len() == visible@.len(),
    ensures
        stretch_views(r@) == stretches(visible@, styles@, visible@.len() as int),
{
    let ghost s = visible@;
    let ghost all = styles@;
    let mut spans: Vec<StyledSpan> = Vec::new();
    let mut start: usize = 0;
    let mut idx: usize = 0;
    assert(stretch_views(spans@) =~= Seq::<StretchView>::empty());
    while idx < visible.len()
        invariant
            idx <= visible@.len(),
            s == visible@,
            all == styles@,
            all.len() == s.len(),
            idx == 0 ==> start == 0,
            idx > 0 ==> start == stretch_start(all, idx as int) && start < idx,
            stretch_views(spans@) == stretches(s, all, start as int),
        decreases visible@.len() - idx,
    {
        if idx > 0 && !same_style(styles[idx], styles[idx - 1]) {
            let ghost before = stretch_views(spans@);
            if let Some(style) = styles[idx - 1] {
                let text = decode_lossy(copy_range(visible, start, idx).as_slice());
                spans.push(StyledSpan { text, start, end: idx, style });
                assert(stretch_views(spans@) =~= before.push(
                    StretchView {
                        text: lossy_text(s.subrange(start as int, idx as int)),
                        start: start as int,
                        end: idx as int,
                        style,
                    },
                ));
            }
            start = idx;
        }
        idx = idx + 1;
    }
    if visible.len() > 0 {
        let end = visible.len();
        let ghost before = stretch_views(spans@);
        if let Some(style) = styles[end - 1] {
            let text = decode_lossy(copy_range(visible, start, end).as_slice());
            spans.push(StyledSpan { text, start, end, style });
            assert(stretch_views(spans@) =~= before.push(
                StretchView {
                    text: lossy_text(s.subrange(start as int, end as int)),
                    start: start as int,
                    end: end as int,
                    style,
                },
            ));
        }
    }
    spans
}

/// Styled stretches are disjoint, in order and not empty, and each covers
/// exactly bytes of its style.
pub proof fn stretches_cover_styles(s: Seq<u8>, styles: Seq<Option<Style>>, n: int)
    requires
        0 <= n <= s.len(),
        styles.len() == s.len(),
    ensures
        forall|i: int|
            0 <= i < stretches(s, styles, n).len() ==> is_stretch(
                styles,
                #[trigger] stretches(s, styles, n)[i],
                n,
            ),
        forall|i: int, j: int|
            0 <= i < j < stretches(s, styles, n).len() ==> (#[trigger] stretches(
                s,
                styles,
                n,
            )[i]).end <= (#[trigger] stretches(s, styles, n)[j]).start,
        forall|k: int|
            0 <= k < n && styles[k] is Some ==> exists|i: int|
                0 <= i < stretches(s, styles, n).len() && #[trigger] covers(
                    stretches(s, styles, n)[i],
                    k,
                ),
    decreases n,
{
    let all = stretches(s, styles, n);
    if n > 0 {
        let start = stretch_start(styles, n);
        lemma_stretch_start(styles, n);
        stretches_cover_styles(s, styles, start);
        let before = stretches(s, styles, start);
        assert forall|i: int| 0 <= i < all.len() implies is_stretch(
            styles,
            #[trigger] all[i],
            n,
        ) by {
            if i < before.len() {
                assert(is_stretch(styles, before[i], start));
                assert(all[i] == before[i]);
            }
        }
        assert forall|i: int, j: int| 0 <= i < j < all.len() implies (#[trigger] all[i]).end <= (
        #[trigger] all[j]).start by {
            assert(is_stretch(styles, before[i], start));
            assert(all[i] == before[i]);
            if j < before.len() {
                assert(all[j] == before[j]);
            }
        }
        assert forall|k: int| 0 <= k < n && styles[k] is Some implies exists|i: int|
            0 <= i < all.len() && #[trigger] covers(all[i], k) by {
            if k < start {
                let i = choose|i: int| 0 <= i < before.len() && #[trigger] covers(before[i], k);
                assert(all[i] == before[i]);
                assert(covers(all[i], k));
            } else {
                assert(styles[k] == styles[n - 1]);
                assert(covers(all[all.len() - 1], k));
            }
        }
    }
}

pub open spec fn covers(stretch: StretchView, k: int) -> bool {
    stretch.start <= k < stretch.end
}

/// A run of bytes of one style within the first `n` bytes.
pub open spec fn is_stretch(styles: Seq<Option<Style>>, stretch: StretchView, n: int) -> bool {
    &&& 0 <= stretch.start < stretch.end <= n
    &&& forall|k: int|
        stretch.start <= k < stretch.end ==> #[trigger] styles[k] == Some(stretch.style)
}

/// The rules that are out of use.
pub fn is_disabled(disabled: &Vec<RuleSpec>, rule: &RuleSpec) -> (r: bool)
    ensures
        r == rule_views(disabled@).contains(rule@),
{
    let ghost views = rule_views(disabled@);
    let mut i: usize = 0;
    while i < disabled.len()
        invariant
            i <= disabled@.len(),
            views == rule_views(disabled@),
            forall|k: int| 0 <= k < i ==> #[trigger] views[k] != rule@,
        decreases disabled@.len() - i,
    {
        assert(views[i as int] == disabled@[i as int]@);
        if disabled[i].same(rule) {
            assert(views.contains(rule@));
            return true;
        }
        i = i + 1;
    }
    false
}

impl Highlighter {
    /// Compiles rules; colors are written in full.
    pub fn from_config(config: PrismConfig) -> (r: Result<Highlighter, HighlightError>)
        ensures
            match r {
                Ok(h) => compiled_rules(config@.rules) == Ok::<Seq<CompiledView>, HighlightIssue>(
                    h@.rules,
                ) && h@.color == ColorMode::TrueColor,
                Err(error) => compiled_rules(config@.rules) == Err::<Seq<CompiledView>, HighlightIssue>(
                    error@,
                ),
            },
    {
        Highlighter::from_config_with_color_mode(config, ColorMode::TrueColor)
    }

    /// Compiles rules for a color depth.
    pub fn from_config_with_color_mode(config: PrismConfig, color_mode: ColorMode) -> (r: Result<
        Highlighter,
        HighlightError,
    >)
        ensures
            match r {
                Ok(h) => compiled_rules(config@.rules) == Ok::<Seq<CompiledView>, HighlightIssue>(
                    h@.rules,
                ) && h@.color == color_mode,
                Err(error) => compiled_rules(config@.rules) == Err::<Seq<CompiledView>, HighlightIssue>(
                    error@,
                ),
            },
    {
        match compile_rules(&config.rules) {
            Ok(rules) => Ok(Highlighter { rules, color_mode }),
            Err(error) => Err(error),
        }
    }

    pub fn color_mode(&self) -> (r: ColorMode)
        ensures
            r == self@.color,
    {
        self.color_mode
    }

    pub fn duplicate(&self) -> (r: Highlighter)
        ensures
            r@ == self@,
    {
        let mut rules: Vec<CompiledRule> = Vec::new();
        let mut i: usize = 0;
        while i < self.rules.len()
            invariant
                i <= self.rules@.len(),
                rules@.len() == i,
                forall|k: int| 0 <= k < i ==> (#[trigger] rules@[k])@ == self.rules@[k]@,
            decreases self.rules@.len() - i,
        {
            rules.push(self.rules[i].duplicate());
            i = i + 1;
        }
        assert(compiled_views(rules@) =~= compiled_views(self.rules@));
        Highlighter { rules, color_mode: self.color_mode }
    }

    /// The style of each visible byte, or the first failure of a rule.
    pub fn match_styles(&self, visible: &[u8]) -> (r: Result<Vec<Option<Style>>, RuleMatchError>)
        ensures
            styles_possible(self@.rules, visible@, match_result(r)),
    {
        let ghost rules = self@.rules;
        let ghost s = visible@;
        let ghost mut runs: Seq<RunView> = Seq::empty();
        let mut canvas = Canvas::new(visible.len());
        let mut i: usize = 0;
        assert(rules.len() == self.rules@.len());
        while i < self.rules.len()
            invariant
                i <= self.rules@.len(),
                rules == self@.rules,
                rules.len() == self.rules@.len(),
                s == visible@,
                runs.len() == i,
                canvas@ == painted_by(rules, s, runs),
                canvas@.fits(s),
                runs_possible(rules, s, runs),
                runs.len() > 0 ==> runs.last().error is None,
            decreases self.rules@.len() - i,
        {
            let rule = &self.rules[i];
            assert(rules[i as int] == rule@);
            let run = match_rule(&rule.regex, &rule.style, visible);
            canvas.paint(visible, &run, rule.spec.exclusive);
            proof {
                let before = runs;
                runs = runs.push(run@);
                assert(runs.drop_last() =~= before);
                assert(runs_possible(rules, s, runs)) by {
                    assert forall|k: int| 0 <= k < runs.len() implies run_possible(
                        rules[k].regex,
                        s,
                        rules[k].target,
                        #[trigger] runs[k],
                    ) by {
                        if k < before.len() {
                            assert(runs[k] == before[k]);
                        }
                    }
                    assert forall|k: int| 0 <= k < runs.len() - 1 implies (
                    #[trigger] runs[k]).error is None by {
                        assert(runs[k] == before[k]);
                        if k == before.len() - 1 {
                            assert(before[k] == before.last());
                        }
                    }
                }
            }
            if let Some(message) = &run.error {
                return Err(
                    RuleMatchError {
                        description: escape_untrusted(rule.spec.description.as_str()),
                        message: escape_untrusted(message.as_str()),
                    },
                );
            }
            i = i + 1;
        }
        Ok(canvas.finish())
    }

    /// The style of each visible byte. Rules that fail are put out of use; what
    /// they found before that still counts.
    pub fn match_styles_live(
        &self,
        visible: &[u8],
        benchmark: &mut BenchmarkReport,
        disabled: &mut Vec<RuleSpec>,
    ) -> (r: Vec<Option<Style>>)
        requires
            old(benchmark).wf(),
        ensures
            final(benchmark).wf(),
            exists|after: Progress| #[trigger]
                can_become(
                    self@.rules,
                    visible@,
                    progress(visible@.len(), old(benchmark)@, rule_views(old(disabled)@)),
                    after,
                ) && r@ == after.paint.result() && final(benchmark)@ == after.timing && rule_views(
                    final(disabled)@,
                ) == after.disabled,
    {
        let ghost rules = self@.rules;
        let ghost s = visible@;
        let ghost p = progress(s.len(), benchmark@, rule_views(disabled@));
        let ghost mut seen: Seq<(RunView, u128)> = Seq::empty();
        let mut canvas = Canvas::new(visible.len());
        let mut i: usize = 0;
        assert(rules.len() == self.rules@.len());
        while i < self.rules.len()
            invariant
                i <= self.rules@.len(),
                rules == self@.rules,
                rules.len() == self.rules@.len(),
                s == visible@,
                p == progress(s.len(), old(benchmark)@, rule_views(old(disabled)@)),
                seen.len() == i,
                benchmark.wf(),
                canvas@.fits(s),
                (Progress {
                    paint: canvas@,
                    timing: benchmark@,
                    disabled: rule_views(disabled@),
                }) == p.after_rules(rules, s, seen, i as int),
                forall|k: int|
                    0 <= k < i && !p.after_rules(rules, s, seen, k).disabled.contains(
                        rules[k].rule,
                    ) ==> run_possible(rules[k].regex, s, rules[k].target, (#[trigger] seen[k]).0),
            decreases self.rules@.len() - i,
        {
            let rule = &self.rules[i];
            assert(rules[i as int] == rule@);
            let ghost before = seen;
            let out_of_use = is_disabled(disabled, &rule.spec);
            if out_of_use {
                proof {
                    let nothing = (RunView { spans: Seq::empty(), count: 0, error: None }, 0u128);
                    lemma_all_prefixes(p, rules, s, before, nothing);
                    seen = before.push(nothing);
                    assert(p.after_rules(rules, s, before, i as int) == p.after_rules(
                        rules,
                        s,
                        seen,
                        i as int,
                    ));
                    assert forall|k: int|
                        0 <= k < i + 1 && !p.after_rules(rules, s, seen, k).disabled.contains(
                            rules[k].rule,
                        ) implies run_possible(rules[k].regex, s, rules[k].target, (#[trigger] seen[k]).0) by {
                        if k < i {
                            assert(seen[k] == before[k]);
                        }
                    }
                }
            } else {
                let started = Instant::now();
                let run = match_rule(&rule.regex, &rule.style, visible);
                let nanos = nanos_since(&started);
                benchmark.record(&rule.spec, nanos, run.count, &run.error);
                canvas.paint(visible, &run, rule.spec.exclusive);
                let ghost views = rule_views(disabled@);
                if run.error.is_some() {
                    disabled.push(rule.spec.duplicate());
                    assert(rule_views(disabled@) =~= views.push(rule.spec@));
                }
                proof {
                    let item = (run@, nanos);
                    lemma_all_prefixes(p, rules, s, before, item);
                    seen = before.push(item);
                    let past = p.after_rules(rules, s, before, i as int);
                    assert(past == p.after_rules(rules, s, seen, i as int));
                    assert(seen[i as int] == item);
                    assert(run@.count as usize == run.count);
                    assert(p.after_rules(rules, s, seen, i + 1) == past.after(
                        rules[i as int],
                        s,
                        run@,
                        nanos,
                    ));
                    assert forall|k: int|
                        0 <= k < i + 1 && !p.after_rules(rules, s, seen, k).disabled.contains(
                            rules[k].rule,
                        ) implies run_possible(rules[k].regex, s, rules[k].target, (#[trigger] seen[k]).0) by {
                        if k < i {
                            assert(seen[k] == before[k]);
                        }
                    }
                }
            }
            i = i + 1;
        }
        let r = canvas.finish();
        proof {
            let after = p.after_rules(rules, s, seen, rules.len() as int);
            assert(p.can_see(rules, s, seen));
            assert(can_become(rules, s, p, after));
        }
        r
    }

    /// The bytes with styles on the visible ones, or the first failure of a
    /// rule.
    pub fn try_highlight_bytes(&self, input: &[u8]) -> (r: Result<Vec<u8>, RuleMatchError>)
        ensures
            highlighting(self@, input@, bytes_result(r)),
    {
        let tokens = tokenize_ansi(input);
        let text = visible_bytes(tokens.as_slice());
        proof {
            text_tokens_are_the_visible_text(input@);
        }
        let matched = self.match_styles(text.as_slice());
        let ghost result = match_result(matched);
        assert(styles_possible(self@.rules, visible(input@), result));
        match matched {
            Ok(styles) => {
                let mut native = NativeSgrState::new();
                let output = emit_highlighted(
                    tokens.as_slice(),
                    styles.as_slice(),
                    self.color_mode,
                    ResetMode::Full,
                    &mut native,
                );
                assert(Ok::<Seq<u8>, MatchIssue>(output@) == highlighted_with(
                    self@,
                    input@,
                    result,
                ));
                Ok(output)
            },
            Err(error) => {
                assert(Err::<Seq<u8>, MatchIssue>(error@) == highlighted_with(
                    self@,
                    input@,
                    result,
                ));
                Err(error)
            },
        }
    }

    /// The bytes with styles on the visible ones; unchanged where a rule fails.
    pub fn highlight_bytes(&self, input: &[u8]) -> (r: Vec<u8>)
        ensures
            highlights_to(self@, input@, r@),
    {
        let tried = self.try_highlight_bytes(input);
        assert(highlighting(self@, input@, bytes_result(tried)));
        bytes_or_input(tried, input)
    }

    /// The text with styles on what is visible of it, or the first failure of a
    /// rule. Where a control sequence cuts a character in two, so that the
    /// styled bytes are no text, the text is unchanged.
    pub fn try_highlight_str(&self, input: &str) -> (r: Result<String, RuleMatchError>)
        ensures
            exists|result: Result<Seq<u8>, MatchIssue>| #[trigger]
                highlighting(self@, encode_utf8(input@), result) && (match r {
                    Ok(text) => text_result(input@, result) == Ok::<Seq<char>, MatchIssue>(text@),
                    Err(error) => text_result(input@, result) == Err::<Seq<char>, MatchIssue>(
                        error@,
                    ),
                }),
            uncut(encode_utf8(input@)) ==> (r matches Ok(text) ==> highlighting(
                self@,
                encode_utf8(input@),
                Ok(encode_utf8(text@)),
            )),
    {
        let tried = self.try_highlight_bytes(input.as_bytes());
        assert(highlighting(self@, encode_utf8(input@), bytes_result(tried)));
        proof {
            if uncut(encode_utf8(input@)) && bytes_result(tried) is Ok {
                highlighted_strings_are_the_styled_bytes(
                    self@,
                    input@,
                    bytes_result(tried)->Ok_0,
                );
            }
        }
        match tried {
            Ok(bytes) => match utf8_text(bytes.as_slice()) {
                Some(text) => Ok(text),
                None => Ok(copy_text(input)),
            },
            Err(error) => Err(error),
        }
    }

    /// The text with styles on what is visible of it; unchanged where a rule
    /// fails.
    pub fn highlight_str(&self, input: &str) -> (r: String)
        ensures
            exists|result: Result<Seq<u8>, MatchIssue>| #[trigger]
                highlighting(self@, encode_utf8(input@), result) && r@ == (match text_result(
                    input@,
                    result,
                ) {
                    Ok(text) => text,
                    Err(_) => input@,
                }),
            uncut(encode_utf8(input@)) ==> highlights_to(
                self@,
                encode_utf8(input@),
                encode_utf8(r@),
            ),
    {
        match self.try_highlight_str(input) {
            Ok(text) => text,
            Err(_) => copy_text(input),
        }
    }

    /// The styled stretches of visible text, or the first failure of a rule.
    pub fn try_style_spans(&self, input: &[u8]) -> (r: Result<Vec<StyledSpan>, RuleMatchError>)
        ensures
            exists|styles: Result<Seq<Option<Style>>, MatchIssue>| #[trigger]
                styles_possible(self@.rules, visible(input@), styles) && (match r {
                    Ok(spans) => styles is Ok && stretch_views(spans@) == stretches(
                        visible(input@),
                        styles->Ok_0,
                        visible(input@).len() as int,
                    ),
                    Err(error) => styles == Err::<Seq<Option<Style>>, MatchIssue>(error@),
                }),
    {
        let tokens = tokenize_ansi(input);
        let text = visible_bytes(tokens.as_slice());
        proof {
            text_tokens_are_the_visible_text(input@);
        }
        let matched = self.match_styles(text.as_slice());
        let ghost result = match_result(matched);
        assert(styles_possible(self@.rules, visible(input@), result));
        match matched {
            Ok(styles) => {
                proof {
                    styles_keep_characters_whole(self@.rules, text@, result);
                }
                Ok(collect_styled_spans(text.as_slice(), styles.as_slice()))
            },
            Err(error) => Err(error),
        }
    }

    /// The styled stretches of visible text; none where a rule fails.
    pub fn style_spans(&self, input: &[u8]) -> (r: Vec<StyledSpan>)
        ensures
            exists|styles: Result<Seq<Option<Style>>, MatchIssue>| #[trigger]
                styles_possible(self@.rules, visible(input@), styles) && stretch_views(r@) == (
                match styles {
                    Ok(styles) => stretches(
                        visible(input@),
                        styles,
                        visible(input@).len() as int,
                    ),
                    Err(_) => Seq::empty(),
                }),
    {
        match self.try_style_spans(input) {
            Ok(spans) => spans,
            Err(_) => {
                let none: Vec<StyledSpan> = Vec::new();
                assert(stretch_views(none@) =~= Seq::<StretchView>::empty());
                none
            },
        }
    }
}

proof fn lemma_all_prefixes(
    p: Progress,
    rules: Seq<CompiledView>,
    s: Seq<u8>,
    seen: Seq<(RunView, u128)>,
    x: (RunView, u128),
)
    ensures
        forall|k: int|
            k <= seen.len() ==> #[trigger] p.after_rules(rules, s, seen.push(x), k)
                == p.after_rules(rules, s, seen, k),
{
    assert forall|k: int| k <= seen.len() implies #[trigger] p.after_rules(
        rules,
        s,
        seen.push(x),
        k,
    ) == p.after_rules(rules, s, seen, k) by {
        lemma_after_rules_prefix(p, rules, s, seen, x, k);
    }
}

/// Highlighted text: the styled bytes where they are text, else the text
/// itself.
pub open spec fn text_result(input: Seq<char>, result: Result<Seq<u8>, MatchIssue>) -> Result<
    Seq<char>,
    MatchIssue,
> {
    match result {
        Ok(bytes) => if valid_utf8(bytes) {
            Ok(decode_utf8(bytes))
        } else {
            Ok(input)
        },
        Err(issue) => Err(issue),
    }
}

} // verus!
