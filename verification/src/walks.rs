//! Laws about how a rule goes over a text: every match is colored, the search
//! goes on behind it, and a failed search leaves out no more than a word.

use vstd::prelude::*;

use crate::compiled::{
    compiled, compiled_all, compiled_rules, exclusive_first, group_of, missing_group, CompiledView,
    HighlightIssue,
};
use crate::config::{CaptureView, ConfigIssue, RuleStyleView, RuleView};
use crate::highlight::{HighlighterView, Progress};
use crate::inheritance::{selected, Loaded};
use crate::matching::{
    blank_from, colored_groups, group_spans, walked, Outcome, RunView, Span, TargetView, Walk,
};
use crate::pcre::{regex_group_names, regex_groups};
use crate::profiles::ProfileView;
use crate::session::{built, SessionIssue};
use crate::style::{ColorMode, Style};

verus! {

/// A match is colored from its start to its end, and the next search starts
/// where it ends. An empty match, which shows nothing, is followed by a search
/// one byte on.
pub proof fn matches_are_colored(w: Walk, s: Seq<u8>, style: Style, start: int, end: int)
    requires
        0 <= w.from <= start <= end <= s.len(),
    ensures
        ({
            let next = w.found(s, TargetView::Whole(style), start, end, Seq::empty());
            &&& start < end ==> next.spans == w.spans.push(Span { start, end, style })
            &&& start < end ==> next.from == end && !next.over && next.last == Some(end)
            &&& start == end && w.last != Some(end) ==> next.spans == w.spans.push(
                Span { start, end, style },
            )
            &&& start == end && w.last == Some(end) ==> next.spans == w.spans && next.count
                == w.count
            &&& start == end ==> next.over == (end == s.len()) && (end < s.len() ==> next.from
                == end + 1)
            &&& next.failures == w.failures
        }),
{
    let span = Span { start, end, style };
    assert(w.spans + seq![span] =~= w.spans.push(span));
}

/// The walk goes on, and what it finds next stands behind where it searches.
pub open spec fn finds_ahead(w: Walk, s: Seq<u8>, outcome: Outcome) -> bool {
    !w.over && match outcome {
        Outcome::Found(start, end, groups) => w.from <= start <= end <= s.len(),
        _ => true,
    }
}

/// The places where a match is, in the order of the searches, do not overlap:
/// what comes first in the text is colored first.
pub proof fn matches_do_not_overlap(
    s: Seq<u8>,
    style: Style,
    outcomes: Seq<Outcome>,
    i: int,
    j: int,
)
    requires
        forall|k: int|
            0 <= k < outcomes.len() ==> #[trigger] finds_ahead(
                walked(s, TargetView::Whole(style), outcomes.take(k)),
                s,
                outcomes[k],
            ),
        0 <= i < j < walked(s, TargetView::Whole(style), outcomes).spans.len(),
    ensures
        ({
            let w = walked(s, TargetView::Whole(style), outcomes);
            w.spans[i].end <= w.spans[j].start && w.spans[i].style == style
        }),
{
    lemma_spans_behind(s, style, outcomes);
}

proof fn lemma_blank(s: Seq<u8>, i: int)
    requires
        0 <= i <= s.len(),
    ensures
        match blank_from(s, i) {
            Some(b) => i <= b < s.len() && (s[b] == 0x20 || s[b] == 0x09 || s[b] == 0x0a || s[b]
                == 0x0c || s[b] == 0x0d) && forall|k: int|
                i <= k < b ==> #[trigger] s[k] != 0x20 && s[k] != 0x09 && s[k] != 0x0a && s[k]
                    != 0x0c && s[k] != 0x0d,
            None => forall|k: int|
                i <= k < s.len() ==> #[trigger] s[k] != 0x20 && s[k] != 0x09 && s[k] != 0x0a && s[k]
                    != 0x0c && s[k] != 0x0d,
        },
    decreases s.len() - i,
{
    if i < s.len() {
        lemma_blank(s, i + 1);
    }
}

proof fn lemma_spans_behind(s: Seq<u8>, style: Style, outcomes: Seq<Outcome>)
    requires
        forall|k: int|
            0 <= k < outcomes.len() ==> #[trigger] finds_ahead(
                walked(s, TargetView::Whole(style), outcomes.take(k)),
                s,
                outcomes[k],
            ),
    ensures
        ({
            let w = walked(s, TargetView::Whole(style), outcomes);
            &&& 0 <= w.from <= s.len()
            &&& !w.over ==> forall|i: int|
                0 <= i < w.spans.len() ==> (#[trigger] w.spans[i]).end <= w.from
            &&& forall|i: int, j: int|
                0 <= i < j < w.spans.len() ==> (#[trigger] w.spans[i]).end <= (
                #[trigger] w.spans[j]).start
            &&& forall|i: int|
                0 <= i < w.spans.len() ==> (#[trigger] w.spans[i]).style == style
                    && w.spans[i].start <= w.spans[i].end
        }),
    decreases outcomes.len(),
{
    let target = TargetView::Whole(style);
    if outcomes.len() > 0 {
        let before = outcomes.drop_last();
        assert forall|k: int| 0 <= k < before.len() implies #[trigger] finds_ahead(
            walked(s, target, before.take(k)),
            s,
            before[k],
        ) by {
            assert(before[k] == outcomes[k]);
            assert(before.take(k) =~= outcomes.take(k));
            assert(finds_ahead(walked(s, target, outcomes.take(k)), s, outcomes[k]));
        }
        lemma_spans_behind(s, style, before);
        let w = walked(s, target, before);
        let n = outcomes.len() - 1;
        assert(outcomes.take(n) =~= before);
        assert(outcomes[n] == outcomes.last());
        assert(finds_ahead(walked(s, target, outcomes.take(n)), s, outcomes[n]));
        match outcomes.last() {
            Outcome::Found(start, end, groups) => {
                let next = w.found(s, target, start, end, groups);
                assert(next.spans == w.spans || next.spans =~= w.spans.push(
                    Span { start, end, style },
                ));
            },
            Outcome::Missing => {},
            Outcome::Failed(text) => {
                lemma_blank(s, w.from);
            },
        }
    }
}

/// Behind a failed search the next one starts behind the next white space, and
/// what was colored stays. There is no next search without white space, and
/// none behind the fifth failure.
pub proof fn failed_searches_leave_out_a_word(w: Walk, s: Seq<u8>, text: Seq<char>, b: int)
    requires
        0 <= w.from <= s.len(),
        w.from <= b <= s.len(),
        forall|k: int|
            w.from <= k < b ==> #[trigger] s[k] != 0x20 && s[k] != 0x09 && s[k] != 0x0a && s[k]
                != 0x0c && s[k] != 0x0d,
        b < s.len() ==> s[b] == 0x20 || s[b] == 0x09 || s[b] == 0x0a || s[b] == 0x0c || s[b]
            == 0x0d,
        !w.over,
    ensures
        ({
            let next = w.failed(s, text);
            &&& next.spans == w.spans
            &&& next.count == w.count
            &&& next.failures == w.failures + 1
            &&& next.over <==> b == s.len() || w.failures >= 4
            &&& !next.over ==> next.from == b + 1
            &&& next.error == if w.error is None {
                Some(text)
            } else {
                w.error
            }
        }),
{
    lemma_blank(s, w.from);
}

/// Each group that took part in a match is colored in its own style, and
/// nothing else of the match is.
pub proof fn groups_are_colored(captures: Seq<(usize, Style)>, groups: Seq<Option<(int, int)>>)
    requires
        captures.len() == groups.len(),
    ensures
        forall|k: int|
            0 <= k < groups.len() && (#[trigger] groups[k]) is Some ==> group_spans(
                captures,
                groups,
            ).contains(
                Span {
                    start: groups[k]->Some_0.0,
                    end: groups[k]->Some_0.1,
                    style: captures[k].1,
                },
            ),
        forall|i: int|
            0 <= i < group_spans(captures, groups).len() ==> exists|k: int|
                0 <= k < groups.len() && #[trigger] groups[k] == Some(
                    (
                        (#[trigger] group_spans(captures, groups)[i]).start,
                        group_spans(captures, groups)[i].end,
                    ),
                ) && captures[k].1 == group_spans(captures, groups)[i].style,
        group_spans(captures, groups).len() <= groups.len(),
    decreases captures.len(),
{
    if captures.len() > 0 {
        let c = captures.drop_last();
        let g = groups.drop_last();
        groups_are_colored(c, g);
        let before = group_spans(c, g);
        let all = group_spans(captures, groups);
        let n = captures.len() - 1;
        assert forall|k: int| 0 <= k < groups.len() && (
        #[trigger] groups[k]) is Some implies all.contains(
            Span {
                start: groups[k]->Some_0.0,
                end: groups[k]->Some_0.1,
                style: captures[k].1,
            },
        ) by {
            let span = Span {
                start: groups[k]->Some_0.0,
                end: groups[k]->Some_0.1,
                style: captures[k].1,
            };
            if k < n {
                assert(g[k] == groups[k] && c[k] == captures[k]);
                assert(before.contains(span));
                let i = choose|i: int| 0 <= i < before.len() && before[i] == span;
                assert(all[i] == span);
            } else {
                assert(all[all.len() - 1] == span);
            }
        }
        assert forall|i: int| 0 <= i < all.len() implies exists|k: int|
            0 <= k < groups.len() && #[trigger] groups[k] == Some(
                ((#[trigger] all[i]).start, all[i].end),
            ) && captures[k].1 == all[i].style by {
            if i < before.len() {
                assert(all[i] == before[i]);
                let k = choose|k: int|
                    0 <= k < g.len() && #[trigger] g[k] == Some((before[i].start, before[i].end))
                        && c[k].1 == before[i].style;
                assert(groups[k] == g[k] && captures[k] == c[k]);
            } else {
                assert(groups[n] == groups.last());
            }
        }
    }
}

/// The groups are those that the style refers to by their numbers.
pub proof fn groups_are_found_by_number(
    captures: Seq<(usize, Style)>,
    groups: Seq<Option<(int, int)>>,
    k: int,
)
    requires
        0 <= k < captures.len(),
    ensures
        colored_groups(captures, groups).len() == captures.len(),
        (captures[k].0 as int) < groups.len() ==> colored_groups(captures, groups)[k]
            == groups[captures[k].0 as int],
        (captures[k].0 as int) >= groups.len() ==> colored_groups(captures, groups)[k] is None,
{
}

/// Rules that exclude others are asked before all that do not, and rules of
/// the same sort in the order in which they were given. No rule is lost.
pub proof fn exclusive_rules_come_first(rules: Seq<RuleView>, i: int, j: int)
    requires
        0 <= i < j < exclusive_first(rules).len(),
    ensures
        exclusive_first(rules)[j].exclusive ==> exclusive_first(rules)[i].exclusive,
        exclusive_first(rules).to_multiset() == rules.to_multiset(),
{
    let on = |r: RuleView| r.exclusive;
    let off = |r: RuleView| !r.exclusive;
    lemma_filter_all(rules, on);
    lemma_filter_all(rules, off);
    lemma_parted(rules);
    let a = rules.filter(on);
    let b = rules.filter(off);
    if j >= a.len() {
        assert(exclusive_first(rules)[j] == b[j - a.len()]);
        assert(off(b[j - a.len()]));
    } else {
        assert(exclusive_first(rules)[i] == a[i]);
        assert(on(a[i]));
    }
}

proof fn lemma_filter_all(rules: Seq<RuleView>, p: spec_fn(RuleView) -> bool)
    ensures
        forall|k: int| 0 <= k < rules.filter(p).len() ==> p(#[trigger] rules.filter(p)[k]),
    decreases rules.len(),
{
    reveal(Seq::filter);
    if rules.len() > 0 {
        lemma_filter_all(rules.drop_last(), p);
    }
}

proof fn lemma_parted(rules: Seq<RuleView>)
    ensures
        exclusive_first(rules).to_multiset() == rules.to_multiset(),
    decreases rules.len(),
{
    broadcast use vstd::seq_lib::group_to_multiset_ensures;

    reveal(Seq::filter);
    let on = |r: RuleView| r.exclusive;
    let off = |r: RuleView| !r.exclusive;
    if rules.len() > 0 {
        let before = rules.drop_last();
        let x = rules.last();
        lemma_parted(before);
        let a = before.filter(on);
        let b = before.filter(off);
        assert(rules =~= before.push(x));
        vstd::seq_lib::lemma_multiset_commutative(a, b);
        if x.exclusive {
            assert(rules.filter(on) == a.push(x));
            assert(rules.filter(off) == b);
            vstd::seq_lib::lemma_multiset_commutative(a.push(x), b);
            assert(exclusive_first(rules).to_multiset() =~= rules.to_multiset());
        } else {
            assert(rules.filter(on) == a);
            assert(rules.filter(off) == b.push(x));
            vstd::seq_lib::lemma_multiset_commutative(a, b.push(x));
            assert(exclusive_first(rules).to_multiset() =~= rules.to_multiset());
        }
    } else {
        assert(exclusive_first(rules) =~= rules);
    }
}

proof fn lemma_compiled_each(rules: Seq<RuleView>, all: Seq<CompiledView>, k: int)
    requires
        compiled_all(rules) matches Ok(views) && views == all,
        0 <= k < rules.len(),
    ensures
        all.len() == rules.len(),
        compiled(rules[k]) matches Ok(view) && view == all[k],
    decreases rules.len(),
{
    let before = compiled_all(rules.drop_last())->Ok_0;
    if rules.len() > 1 {
        lemma_compiled_each(rules.drop_last(), before, if k < rules.len() - 1 {
            k
        } else {
            0
        });
    } else {
        assert(before.len() == 0);
    }
    if k < rules.len() - 1 {
        assert(rules.drop_last()[k] == rules[k]);
    }
}

/// A style for the whole match colors the whole match; a style for groups
/// colors the groups with those numbers or names.
pub proof fn rules_keep_their_styles(rules: Seq<RuleView>, all: Seq<CompiledView>, k: int)
    requires
        compiled_rules(rules) matches Ok(views) && views == all,
        0 <= k < all.len(),
    ensures
        all.len() == rules.len(),
        all[k].rule == exclusive_first(rules)[k],
        match all[k].rule.style {
            RuleStyleView::Whole(style) => all[k].target == TargetView::Whole(style),
            RuleStyleView::Captures(captures) => {
                &&& all[k].target matches TargetView::Captures(groups) && groups.len()
                    == captures.len() && forall|i: int|
                    0 <= i < captures.len() ==> (#[trigger] groups[i]).1 == captures[i].1 && (
                    captures[i].0 matches CaptureView::Index(n) ==> groups[i].0 == n)
            },
        },
{
    let order = exclusive_first(rules);
    assert(order.len() == rules.len()) by {
        lemma_parted(rules);
        broadcast use vstd::seq_lib::group_to_multiset_ensures;

        assert(order.to_multiset().len() == order.len());
        assert(rules.to_multiset().len() == rules.len());
    }
    if order.len() > 0 {
        lemma_compiled_each(order, all, if k < order.len() {
            k
        } else {
            0
        });
    }
    if let RuleStyleView::Captures(captures) = all[k].rule.style {
        let groups = all[k].target->Captures_0;
        assert forall|i: int| 0 <= i < captures.len() implies (#[trigger] groups[i]).1
            == captures[i].1 && (captures[i].0 matches CaptureView::Index(n) ==> groups[i].0 == n) by {
            lemma_no_missing(
                captures,
                regex_groups(all[k].regex),
                regex_group_names(all[k].regex),
                0,
                i,
            );
        }
    }
}

proof fn lemma_no_missing(
    captures: Seq<(CaptureView, Style)>,
    groups: int,
    names: Seq<Option<Seq<char>>>,
    from: int,
    i: int,
)
    requires
        missing_group(captures, groups, names, from) is None,
        0 <= from <= i < captures.len(),
    ensures
        group_of(captures[i].0, groups, names) is Some,
    decreases i - from,
{
    if from < i {
        lemma_no_missing(captures, groups, names, from + 1, i);
    }
}

/// A highlighter has the rules of the profiles and behind them those of the
/// user, so that the user's colors lie on top.
pub proof fn user_rules_come_last(
    profiles: Seq<ProfileView>,
    overlay: Seq<RuleView>,
    names: Seq<Seq<char>>,
    color: ColorMode,
    l: Loaded,
    h: HighlighterView,
)
    requires
        selected(profiles, names) == Ok::<Loaded, ConfigIssue>(l),
        built(profiles, overlay, names, color) == Ok::<HighlighterView, SessionIssue>(h),
    ensures
        h.color == color,
        compiled_rules(l.rules + overlay) == Ok::<Seq<CompiledView>, HighlightIssue>(h.rules),
{
}

/// A rule whose search failed is out of use from then on; the others go on.
pub proof fn failed_rules_are_left_out(
    p: Progress,
    rules: Seq<CompiledView>,
    s: Seq<u8>,
    seen: Seq<(RunView, u128)>,
    n: int,
)
    requires
        0 < n <= rules.len(),
    ensures
        ({
            let before = p.after_rules(rules, s, seen, n - 1);
            let after = p.after_rules(rules, s, seen, n);
            let rule = rules[n - 1].rule;
            let run = seen[n - 1].0;
            &&& before.disabled.contains(rule) ==> after == before
            &&& !before.disabled.contains(rule) && run.error is Some ==> after.disabled
                == before.disabled.push(rule)
            &&& !before.disabled.contains(rule) && run.error is None ==> after.disabled
                == before.disabled
        }),
{
}

} // verus!
