//! Walking over the matches of a rule, and laying their styles over text.

use vstd::prelude::*;

use crate::bytes::{ascii_whitespace, is_ascii_whitespace};
use crate::pcre::{
    error_text, find_match, first_groups, first_match, group_at, pair_ints, CaptureSearch,
    Pattern,
};
use crate::style::Style;

use pcre2::bytes::Regex;

verus! {

/// Failed searches after which a rule is given up on a text.
pub const MAX_RULE_MATCH_ERRORS: usize = 4;

/// What a rule colors, with group references resolved to group numbers.
#[derive(Clone, Debug)]
pub enum CompiledStyle {
    Whole(Style),
    Captures(Vec<(usize, Style)>),
}

/// The content of a [`CompiledStyle`].
pub enum TargetView {
    Whole(Style),
    Captures(Seq<(usize, Style)>),
}

impl View for CompiledStyle {
    type V = TargetView;

    open spec fn view(&self) -> TargetView {
        match self {
            CompiledStyle::Whole(style) => TargetView::Whole(*style),
            CompiledStyle::Captures(captures) => TargetView::Captures(captures@),
        }
    }
}

impl CompiledStyle {
    pub fn duplicate(&self) -> (r: CompiledStyle)
        ensures
            r@ == self@,
    {
        match self {
            CompiledStyle::Whole(style) => CompiledStyle::Whole(*style),
            CompiledStyle::Captures(captures) => {
                let mut copy: Vec<(usize, Style)> = Vec::new();
                let mut i: usize = 0;
                while i < captures.len()
                    invariant
                        i <= captures@.len(),
                        copy@ == captures@.take(i as int),
                    decreases captures@.len() - i,
                {
                    copy.push(captures[i]);
                    assert(copy@ =~= captures@.take(i + 1));
                    i = i + 1;
                }
                assert(captures@.take(i as int) =~= captures@);
                CompiledStyle::Captures(copy)
            },
        }
    }
}

/// A style over the bytes from `start` to `end`.
pub struct Span {
    pub start: int,
    pub end: int,
    pub style: Style,
}

/// What one search found: a match with the places of the groups that are to be
/// colored, no match, or a failure.
pub enum Outcome {
    Found(int, int, Seq<Option<(int, int)>>),
    Missing,
    Failed(Seq<char>),
}

/// Where a walk over matches is.
pub struct Walk {
    /// Where the next search starts, or the last one did.
    pub from: int,
    /// Where the last match that counted ended.
    pub last: Option<int>,
    pub over: bool,
    pub count: int,
    pub failures: int,
    /// What the first failure said.
    pub error: Option<Seq<char>>,
    pub spans: Seq<Span>,
}

/// The spans that a match colors.
pub open spec fn match_spans(
    target: TargetView,
    start: int,
    end: int,
    groups: Seq<Option<(int, int)>>,
) -> Seq<Span> {
    match target {
        TargetView::Whole(style) => seq![Span { start, end, style }],
        TargetView::Captures(captures) => group_spans(captures, groups),
    }
}

/// The spans of the groups that took part in a match.
pub open spec fn group_spans(captures: Seq<(usize, Style)>, groups: Seq<Option<(int, int)>>) -> Seq<
    Span,
>
    decreases captures.len(),
{
    if captures.len() == 0 || groups.len() != captures.len() {
        Seq::empty()
    } else {
        let before = group_spans(captures.drop_last(), groups.drop_last());
        match groups.last() {
            Some((start, end)) => before.push(Span { start, end, style: captures.last().1 }),
            None => before,
        }
    }
}

/// First white space at or behind `i`.
pub open spec fn blank_from(s: Seq<u8>, i: int) -> Option<int>
    decreases s.len() - i,
{
    if !(0 <= i < s.len()) {
        None
    } else if ascii_whitespace(s[i]) {
        Some(i)
    } else {
        blank_from(s, i + 1)
    }
}

/// `n`, or the largest `usize`.
pub open spec fn counted(n: int) -> int {
    if n <= usize::MAX {
        n
    } else {
        usize::MAX as int
    }
}

impl Walk {
    pub open spec fn start() -> Walk {
        Walk {
            from: 0,
            last: None,
            over: false,
            count: 0,
            failures: 0,
            error: None,
            spans: Seq::empty(),
        }
    }

    /// The walk when there is no further match.
    pub open spec fn missed(self) -> Walk {
        Walk { over: true, ..self }
    }

    /// The walk behind a failed search: it goes on behind the next white
    /// space, unless too many searches failed.
    pub open spec fn failed(self, s: Seq<u8>, text: Seq<char>) -> Walk {
        let failures = self.failures + 1;
        let error = if self.error is None {
            Some(text)
        } else {
            self.error
        };
        let blank = blank_from(s, self.from);
        if failures > MAX_RULE_MATCH_ERRORS || blank is None {
            Walk { over: true, failures, error, ..self }
        } else {
            Walk { from: blank->Some_0 + 1, failures, error, ..self }
        }
    }

    /// The walk behind a match. A match that does not lead on, such as an
    /// empty one, is followed by a search one byte on; an empty match right
    /// behind the last one does not count.
    pub open spec fn found(
        self,
        s: Seq<u8>,
        target: TargetView,
        start: int,
        end: int,
        groups: Seq<Option<(int, int)>>,
    ) -> Walk {
        let next = if start == end || end <= self.from {
            end + 1
        } else {
            end
        };
        let over = next > s.len();
        let from = if over {
            self.from
        } else {
            next
        };
        if start == end && self.last == Some(end) {
            Walk { from, over, ..self }
        } else {
            Walk {
                from,
                over,
                last: Some(end),
                count: counted(self.count + 1),
                spans: self.spans + match_spans(target, start, end, groups),
                ..self
            }
        }
    }

    /// The walk behind the outcome of one more search.
    pub open spec fn after(self, s: Seq<u8>, target: TargetView, outcome: Outcome) -> Walk {
        match outcome {
            Outcome::Missing => self.missed(),
            Outcome::Failed(text) => self.failed(s, text),
            Outcome::Found(start, end, groups) => self.found(s, target, start, end, groups),
        }
    }
}

/// The walk behind the outcomes of the first searches.
pub open spec fn walked(s: Seq<u8>, target: TargetView, outcomes: Seq<Outcome>) -> Walk
    decreases outcomes.len(),
{
    if outcomes.len() == 0 {
        Walk::start()
    } else {
        walked(s, target, outcomes.drop_last()).after(s, target, outcomes.last())
    }
}

/// Where the groups are that are to be colored.
pub open spec fn colored_groups(
    captures: Seq<(usize, Style)>,
    groups: Seq<Option<(int, int)>>,
) -> Seq<Option<(int, int)>> {
    captures.map_values(|c: (usize, Style)| group_at(groups, c.0 as int))
}

/// What a search from `from` on finds, if it does not fail.
pub open spec fn search_outcome(
    regex: Regex,
    s: Seq<u8>,
    target: TargetView,
    from: int,
) -> Outcome {
    match target {
        TargetView::Whole(_) => match first_match(regex, s, from) {
            Some((start, end)) => Outcome::Found(start, end, Seq::empty()),
            None => Outcome::Missing,
        },
        TargetView::Captures(captures) => match first_groups(regex, s, from) {
            Some(groups) => Outcome::Found(
                groups[0]->Some_0.0,
                groups[0]->Some_0.1,
                colored_groups(captures, groups),
            ),
            None => Outcome::Missing,
        },
    }
}

/// The outcome can come of a search that starts at `from`: it is what there is
/// to find, or a failure.
pub open spec fn possible(
    regex: Regex,
    s: Seq<u8>,
    target: TargetView,
    from: int,
    outcome: Outcome,
) -> bool {
    outcome is Failed || outcome == search_outcome(regex, s, target, from)
}

/// The outcomes are those of all searches of one walk.
pub open spec fn is_walk(
    regex: Regex,
    s: Seq<u8>,
    target: TargetView,
    outcomes: Seq<Outcome>,
) -> bool {
    &&& walked(s, target, outcomes).over
    &&& forall|k: int|
        0 <= k < outcomes.len() ==> #[trigger] step_possible(regex, s, target, outcomes, k)
}

/// The walk goes on behind `k` searches, and the next outcome is possible.
pub open spec fn step_possible(
    regex: Regex,
    s: Seq<u8>,
    target: TargetView,
    outcomes: Seq<Outcome>,
    k: int,
) -> bool {
    let w = walked(s, target, outcomes.take(k));
    !w.over && possible(regex, s, target, w.from, outcomes[k])
}

/// What a rule came to on a text: the spans it colors, how many matches
/// counted, and what the first failed search said.
#[derive(Clone, Debug)]
pub struct RuleRun {
    pub spans: Vec<(usize, usize, Style)>,
    pub count: usize,
    pub error: Option<String>,
}

/// The content of a [`RuleRun`].
pub struct RunView {
    pub spans: Seq<Span>,
    pub count: int,
    pub error: Option<Seq<char>>,
}

pub open spec fn span_views(spans: Seq<(usize, usize, Style)>) -> Seq<Span> {
    spans.map_values(
        |p: (usize, usize, Style)| Span { start: p.0 as int, end: p.1 as int, style: p.2 },
    )
}

pub open spec fn error_view(error: Option<String>) -> Option<Seq<char>> {
    match error {
        Some(text) => Some(text@),
        None => None,
    }
}

impl View for RuleRun {
    type V = RunView;

    open spec fn view(&self) -> RunView {
        RunView {
            spans: span_views(self.spans@),
            count: self.count as int,
            error: error_view(self.error),
        }
    }
}

/// The rule can come to `run` on the text.
pub open spec fn run_possible(
    regex: Regex,
    s: Seq<u8>,
    target: TargetView,
    run: RunView,
) -> bool {
    exists|outcomes: Seq<Outcome>| #[trigger]
        is_walk(regex, s, target, outcomes) && run == run_of(walked(s, target, outcomes))
}

pub open spec fn run_of(w: Walk) -> RunView {
    RunView { spans: w.spans, count: w.count, error: w.error }
}

fn next_blank(s: &[u8], from: usize) -> (r: Option<usize>)
    requires
        from <= s@.len(),
    ensures
        match r {
            Some(i) => blank_from(s@, from as int) == Some(i as int) && from <= i < s@.len()
                <= usize::MAX,
            None => blank_from(s@, from as int) is None,
        },
{
    let mut i: usize = from;
    while i < s.len()
        invariant
            from <= i <= s@.len(),
            blank_from(s@, from as int) == blank_from(s@, i as int),
        decreases s@.len() - i,
    {
        if is_ascii_whitespace(s[i]) {
            return Some(i);
        }
        i = i + 1;
    }
    None
}

pub open spec fn group_ints(groups: Seq<Option<(usize, usize)>>) -> Seq<Option<(int, int)>> {
    groups.map_values(|g: Option<(usize, usize)>| pair_ints(g))
}

fn push_group_spans(
    spans: &mut Vec<(usize, usize, Style)>,
    captures: &Vec<(usize, Style)>,
    groups: &Vec<Option<(usize, usize)>>,
)
    requires
        groups@.len() == captures@.len(),
    ensures
        span_views(final(spans)@) == span_views(old(spans)@) + group_spans(
            captures@,
            group_ints(groups@),
        ),
{
    let ghost first = span_views(spans@);
    let ghost gs = group_ints(groups@);
    let mut i: usize = 0;
    assert(captures@.take(0) =~= Seq::<(usize, Style)>::empty());
    assert(first + group_spans(captures@.take(0), gs.take(0)) =~= first);
    while i < captures.len()
        invariant
            i <= captures@.len(),
            groups@.len() == captures@.len(),
            gs == group_ints(groups@),
            span_views(spans@) == first + group_spans(captures@.take(i as int), gs.take(i as int)),
        decreases captures@.len() - i,
    {
        let ghost before = span_views(spans@);
        let ghost part = group_spans(captures@.take(i as int), gs.take(i as int));
        assert(captures@.take(i + 1).drop_last() =~= captures@.take(i as int));
        assert(gs.take(i + 1).drop_last() =~= gs.take(i as int));
        if let Some((start, end)) = groups[i] {
            let style = captures[i].1;
            spans.push((start, end, style));
            let ghost span = Span { start: start as int, end: end as int, style };
            assert(span_views(spans@) =~= before.push(span));
            assert(first + part.push(span) =~= (first + part).push(span));
        }
        i = i + 1;
    }
    assert(captures@.take(i as int) =~= captures@);
    assert(gs.take(i as int) =~= gs);
}

fn read_groups(search: &CaptureSearch, captures: &Vec<(usize, Style)>) -> (r: Vec<
    Option<(usize, usize)>,
>)
    ensures
        r@.len() == captures@.len(),
        group_ints(r@) == colored_groups(captures@, search.groups()),
{
    let mut groups: Vec<Option<(usize, usize)>> = Vec::new();
    let mut i: usize = 0;
    while i < captures.len()
        invariant
            i <= captures@.len(),
            groups@.len() == i,
            forall|k: int|
                0 <= k < i ==> pair_ints(#[trigger] groups@[k]) == group_at(
                    search.groups(),
                    captures@[k].0 as int,
                ),
        decreases captures@.len() - i,
    {
        groups.push(search.group(captures[i].0));
        i = i + 1;
    }
    assert(group_ints(groups@) =~= colored_groups(captures@, search.groups()));
    groups
}

/// A walk over the matches of a rule: where the next search starts, and what
/// came out so far.
pub struct MatchCursor {
    pub from: usize,
    pub over: bool,
    pub last: Option<usize>,
    pub failures: usize,
    pub run: RuleRun,
}

impl View for MatchCursor {
    type V = Walk;

    open spec fn view(&self) -> Walk {
        Walk {
            from: self.from as int,
            last: match self.last {
                Some(n) => Some(n as int),
                None => None,
            },
            over: self.over,
            count: self.run@.count,
            failures: self.failures as int,
            error: self.run@.error,
            spans: self.run@.spans,
        }
    }
}

impl MatchCursor {
    /// Another search of the text may be made.
    pub open spec fn ready(self, s: Seq<u8>) -> bool {
        !self.over && self.from <= s.len() && self.failures <= MAX_RULE_MATCH_ERRORS
    }

    /// The start of a walk.
    pub fn new() -> (r: MatchCursor)
        ensures
            r@ == Walk::start(),
            forall|s: Seq<u8>| r.ready(s),
    {
        let r = MatchCursor {
            from: 0,
            over: false,
            last: None,
            failures: 0,
            run: RuleRun { spans: Vec::new(), count: 0, error: None },
        };
        assert(span_views(r.run.spans@) =~= Seq::<Span>::empty());
        r
    }

    /// There is no match any more.
    pub fn missed(&mut self)
        requires
            !old(self).over,
        ensures
            final(self)@ == old(self)@.missed(),
    {
        self.over = true;
    }

    /// A search failed.
    pub fn failed(&mut self, visible: &[u8], message: String)
        requires
            old(self).ready(visible@),
        ensures
            final(self)@ == old(self)@.failed(visible@, message@),
            !final(self).over ==> final(self).ready(visible@) && final(self).from > old(self).from,
    {
        if self.run.error.is_none() {
            self.run.error = Some(message);
        }
        self.failures = self.failures + 1;
        if self.failures > MAX_RULE_MATCH_ERRORS {
            self.over = true;
            return;
        }
        match next_blank(visible, self.from) {
            Some(i) => {
                self.from = i + 1;
            },
            None => {
                self.over = true;
            },
        }
    }

    /// A match was found; tells whether it counts. The spans of a match that
    /// counts are to be added.
    fn step(&mut self, visible: &[u8], start: usize, end: usize) -> (r: bool)
        requires
            old(self).ready(visible@),
            old(self).from <= end <= visible@.len(),
        ensures
            r == !(start == end && old(self)@.last == Some(end as int)),
            forall|target: TargetView, groups: Seq<Option<(int, int)>>|
                final(self)@ == (Walk {
                    spans: old(self)@.spans,
                    ..#[trigger] old(self)@.found(
                        visible@,
                        target,
                        start as int,
                        end as int,
                        groups,
                    )
                }),
            final(self).run.spans == old(self).run.spans,
            final(self).failures == old(self).failures,
            !final(self).over ==> final(self).ready(visible@) && final(self).from > old(self).from,
    {
        if start == end || end <= self.from {
            if end >= visible.len() {
                self.over = true;
            } else {
                self.from = end + 1;
            }
        } else {
            self.from = end;
        }
        let repeated = match self.last {
            Some(n) => start == end && n == end,
            None => false,
        };
        if repeated {
            return false;
        }
        self.last = Some(end);
        if self.run.count < usize::MAX {
            self.run.count = self.run.count + 1;
        }
        true
    }

    /// A match of a rule that colors the whole match.
    pub fn found_whole(&mut self, visible: &[u8], style: Style, start: usize, end: usize)
        requires
            old(self).ready(visible@),
            old(self).from <= end <= visible@.len(),
        ensures
            final(self)@ == old(self)@.found(
                visible@,
                TargetView::Whole(style),
                start as int,
                end as int,
                Seq::empty(),
            ),
            !final(self).over ==> final(self).ready(visible@) && final(self).from > old(self).from,
    {
        let ghost w = self@;
        let ghost after = w.found(
            visible@,
            TargetView::Whole(style),
            start as int,
            end as int,
            Seq::empty(),
        );
        if self.step(visible, start, end) {
            self.run.spans.push((start, end, style));
            assert(span_views(self.run.spans@) =~= w.spans + seq![
                Span { start: start as int, end: end as int, style },
            ]);
        }
        assert(self@ == after);
    }

    /// A match of a rule that colors groups.
    pub fn found_groups(
        &mut self,
        visible: &[u8],
        captures: &Vec<(usize, Style)>,
        groups: &Vec<Option<(usize, usize)>>,
        start: usize,
        end: usize,
    )
        requires
            old(self).ready(visible@),
            old(self).from <= end <= visible@.len(),
            groups@.len() == captures@.len(),
        ensures
            final(self)@ == old(self)@.found(
                visible@,
                TargetView::Captures(captures@),
                start as int,
                end as int,
                group_ints(groups@),
            ),
            !final(self).over ==> final(self).ready(visible@) && final(self).from > old(self).from,
    {
        let ghost after = self@.found(
            visible@,
            TargetView::Captures(captures@),
            start as int,
            end as int,
            group_ints(groups@),
        );
        if self.step(visible, start, end) {
            push_group_spans(&mut self.run.spans, captures, groups);
        }
        assert(self@ == after);
    }
}

proof fn lemma_walk_push(
    regex: Regex,
    s: Seq<u8>,
    target: TargetView,
    outcomes: Seq<Outcome>,
    outcome: Outcome,
)
    requires
        forall|k: int|
            0 <= k < outcomes.len() ==> #[trigger] step_possible(regex, s, target, outcomes, k),
        !walked(s, target, outcomes).over,
        possible(regex, s, target, walked(s, target, outcomes).from, outcome),
    ensures
        forall|k: int|
            0 <= k < outcomes.push(outcome).len() ==> #[trigger] step_possible(
                regex,
                s,
                target,
                outcomes.push(outcome),
                k,
            ),
        walked(s, target, outcomes.push(outcome)) == walked(s, target, outcomes).after(
            s,
            target,
            outcome,
        ),
{
    let all = outcomes.push(outcome);
    assert(all.drop_last() =~= outcomes);
    assert forall|k: int| 0 <= k < all.len() implies #[trigger] step_possible(
        regex,
        s,
        target,
        all,
        k,
    ) by {
        if k < outcomes.len() {
            assert(step_possible(regex, s, target, outcomes, k));
            assert(all.take(k) =~= outcomes.take(k));
        } else {
            assert(all.take(k) =~= outcomes);
        }
    }
}

/// The walk behind the first `n` searches, none of which fails.
pub open spec fn smooth_walk(regex: Regex, s: Seq<u8>, target: TargetView, n: int) -> Walk
    decreases n,
{
    if n <= 0 {
        Walk::start()
    } else {
        let w = smooth_walk(regex, s, target, n - 1);
        w.after(s, target, search_outcome(regex, s, target, w.from))
    }
}

proof fn lemma_smooth_walk(
    regex: Regex,
    s: Seq<u8>,
    target: TargetView,
    outcomes: Seq<Outcome>,
    n: int,
)
    requires
        0 <= n <= outcomes.len(),
        forall|k: int|
            0 <= k < outcomes.len() ==> #[trigger] step_possible(regex, s, target, outcomes, k),
        walked(s, target, outcomes.take(n)).error is None,
    ensures
        walked(s, target, outcomes.take(n)) == smooth_walk(regex, s, target, n),
        forall|k: int| 0 <= k < n ==> !(#[trigger] smooth_walk(regex, s, target, k)).over,
    decreases n,
{
    if n > 0 {
        assert(outcomes.take(n).drop_last() =~= outcomes.take(n - 1));
        assert(step_possible(regex, s, target, outcomes, n - 1));
        lemma_smooth_walk(regex, s, target, outcomes, n - 1);
    }
}

/// What a rule comes to on a text is settled by its pattern, its style and the
/// text, unless a search fails.
pub proof fn runs_without_failure_agree(
    regex: Regex,
    s: Seq<u8>,
    target: TargetView,
    a: RunView,
    b: RunView,
)
    requires
        run_possible(regex, s, target, a),
        run_possible(regex, s, target, b),
        a.error is None,
        b.error is None,
    ensures
        a == b,
{
    let x = choose|outcomes: Seq<Outcome>| #[trigger]
        is_walk(regex, s, target, outcomes) && a == run_of(walked(s, target, outcomes));
    let y = choose|outcomes: Seq<Outcome>| #[trigger]
        is_walk(regex, s, target, outcomes) && b == run_of(walked(s, target, outcomes));
    assert(x.take(x.len() as int) =~= x);
    assert(y.take(y.len() as int) =~= y);
    lemma_smooth_walk(regex, s, target, x, x.len() as int);
    lemma_smooth_walk(regex, s, target, y, y.len() as int);
    assert(smooth_walk(regex, s, target, x.len() as int).over);
    assert(smooth_walk(regex, s, target, y.len() as int).over);
}

/// Walks over the matches of a rule.
pub fn match_rule(regex: &Pattern, style: &CompiledStyle, visible: &[u8]) -> (r: RuleRun)
    ensures
        run_possible(regex@, visible@, style@, r@),
{
    let ghost s = visible@;
    let ghost mut outcomes: Seq<Outcome> = Seq::empty();
    let mut cursor = MatchCursor::new();
    match style {
        CompiledStyle::Whole(whole) => {
            let whole_style = *whole;
            let ghost target = TargetView::Whole(whole_style);
            while !cursor.over
                invariant
                    s == visible@,
                    target == TargetView::Whole(whole_style),
                    cursor@ == walked(s, target, outcomes),
                    !cursor.over ==> cursor.ready(s),
                    forall|k: int|
                        0 <= k < outcomes.len() ==> #[trigger] step_possible(
                            regex@,
                            s,
                            target,
                            outcomes,
                            k,
                        ),
                decreases (if cursor.over {
                    0
                } else {
                    s.len() + 1 - cursor.from
                }),
            {
                match find_match(regex, visible, cursor.from) {
                    Ok(Some((start, end))) => {
                        let ghost found = Outcome::Found(start as int, end as int, Seq::empty());
                        proof {
                            lemma_walk_push(regex@, s, target, outcomes, found);
                            outcomes = outcomes.push(found);
                        }
                        cursor.found_whole(visible, whole_style, start, end);
                    },
                    Ok(None) => {
                        proof {
                            lemma_walk_push(regex@, s, target, outcomes, Outcome::Missing);
                            outcomes = outcomes.push(Outcome::Missing);
                        }
                        cursor.missed();
                    },
                    Err(error) => {
                        let message = error_text(&error);
                        let ghost failed = Outcome::Failed(message@);
                        proof {
                            lemma_walk_push(regex@, s, target, outcomes, failed);
                            outcomes = outcomes.push(failed);
                        }
                        cursor.failed(visible, message);
                    },
                }
            }
            assert(is_walk(regex@, s, target, outcomes));
        },
        CompiledStyle::Captures(captures) => {
            let ghost target = TargetView::Captures(captures@);
            let mut search = CaptureSearch::new(regex);
            while !cursor.over
                invariant
                    search.regex() == regex@,
                    s == visible@,
                    target == TargetView::Captures(captures@),
                    cursor@ == walked(s, target, outcomes),
                    !cursor.over ==> cursor.ready(s),
                    forall|k: int|
                        0 <= k < outcomes.len() ==> #[trigger] step_possible(
                            regex@,
                            s,
                            target,
                            outcomes,
                            k,
                        ),
                decreases (if cursor.over {
                    0
                } else {
                    s.len() + 1 - cursor.from
                }),
            {
                match search.find_match(visible, cursor.from) {
                    Ok(Some((start, end))) => {
                        let groups = read_groups(&search, captures);
                        let ghost found = Outcome::Found(
                            start as int,
                            end as int,
                            group_ints(groups@),
                        );
                        proof {
                            lemma_walk_push(regex@, s, target, outcomes, found);
                            outcomes = outcomes.push(found);
                        }
                        cursor.found_groups(visible, captures, &groups, start, end);
                    },
                    Ok(None) => {
                        proof {
                            lemma_walk_push(regex@, s, target, outcomes, Outcome::Missing);
                            outcomes = outcomes.push(Outcome::Missing);
                        }
                        cursor.missed();
                    },
                    Err(error) => {
                        let message = error_text(&error);
                        let ghost failed = Outcome::Failed(message@);
                        proof {
                            lemma_walk_push(regex@, s, target, outcomes, failed);
                            outcomes = outcomes.push(failed);
                        }
                        cursor.failed(visible, message);
                    },
                }
            }
            assert(is_walk(regex@, s, target, outcomes));
        },
    }
    cursor.run
}

} // verus!
