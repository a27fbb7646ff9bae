//! How long rules took and how often they matched or failed.

use vstd::prelude::*;

use std::time::{Duration, Instant};

use crate::config::{RuleSpec, RuleView};
use crate::matching::error_view;
use crate::text::copy_text;

verus! {

/// `std::time::Instant`, a reading of the clock.
#[verifier::external_type_specification]
#[verifier::external_body]
pub struct ExInstant(std::time::Instant);

/// `Instant::now`: nothing is said of what the clock shows.
pub assume_specification[ std::time::Instant::now ]() -> (r: std::time::Instant)
;

/// `Instant::elapsed`: nothing is said of how much time has passed.
pub assume_specification[ std::time::Instant::elapsed ](
    instant: &std::time::Instant,
) -> (r: std::time::Duration)
;

/// `Duration::as_nanos`: a duration has at most `u64::MAX` whole seconds.
pub assume_specification[ std::time::Duration::as_nanos ](
    duration: &std::time::Duration,
) -> (r: u128)
    ensures
        r < 0x1_0000_0000_0000_0000 * 1_000_000_000,
;

/// What a stopwatch that runs shows: nanoseconds since it was started.
pub(crate) fn nanos_since(started: &Instant) -> (r: u128)
    ensures
        r < 0x1_0000_0000_0000_0000 * 1_000_000_000,
{
    let elapsed: Duration = started.elapsed();
    elapsed.as_nanos()
}

/// Timing and match count of one rule.
#[derive(Clone, Debug)]
pub struct RuleBenchmark {
    /// What the rule is called.
    pub description: String,
    /// Nanoseconds spent on matching.
    pub duration: u128,
    /// How many matches were found.
    pub match_count: usize,
}

/// A rule with its timing and its failures.
#[derive(Clone, Debug)]
pub struct RuleErrorReport {
    pub description: String,
    /// Nanoseconds spent on matching.
    pub duration: u128,
    pub match_count: usize,
    /// On how many texts matching failed.
    pub count: usize,
    /// What the latest failure said.
    pub last: Option<String>,
}

/// The content of a [`RuleErrorReport`].
pub struct LineView {
    pub description: Seq<char>,
    pub duration: u128,
    pub match_count: usize,
    pub count: usize,
    pub last: Option<Seq<char>>,
}

impl View for RuleErrorReport {
    type V = LineView;

    open spec fn view(&self) -> LineView {
        LineView {
            description: self.description@,
            duration: self.duration,
            match_count: self.match_count,
            count: self.count,
            last: error_view(self.last),
        }
    }
}

pub open spec fn line_views(lines: Seq<RuleErrorReport>) -> Seq<LineView> {
    lines.map_values(|l: RuleErrorReport| l@)
}

/// What a report holds of a rule.
pub struct EntryView {
    pub rule: RuleView,
    pub line: LineView,
}

/// `a + b`, or the largest `u128`.
pub open spec fn sum_u128(a: u128, b: u128) -> u128 {
    if a + b <= u128::MAX {
        (a + b) as u128
    } else {
        u128::MAX
    }
}

/// `a + b`, or the largest `usize`.
pub open spec fn sum_usize(a: usize, b: usize) -> usize {
    if a + b <= usize::MAX {
        (a + b) as usize
    } else {
        usize::MAX
    }
}

/// Where the report holds `rule`, from entry `i` on.
pub open spec fn entry_from(entries: Seq<EntryView>, rule: RuleView, i: int) -> Option<int>
    decreases entries.len() - i,
{
    if !(0 <= i < entries.len()) {
        None
    } else if entries[i].rule == rule {
        Some(i)
    } else {
        entry_from(entries, rule, i + 1)
    }
}

/// A first record of a rule.
pub open spec fn first_line(
    description: Seq<char>,
    nanos: u128,
    count: usize,
    error: Option<Seq<char>>,
) -> LineView {
    LineView {
        description,
        duration: nanos,
        match_count: count,
        count: if error is Some {
            1
        } else {
            0
        },
        last: error,
    }
}

impl LineView {
    /// The line with one more record added.
    pub open spec fn plus(self, nanos: u128, count: usize, error: Option<Seq<char>>) -> LineView {
        LineView {
            description: self.description,
            duration: sum_u128(self.duration, nanos),
            match_count: sum_usize(self.match_count, count),
            count: if error is Some {
                sum_usize(self.count, 1)
            } else {
                self.count
            },
            last: if error is Some {
                error
            } else {
                self.last
            },
        }
    }
}

/// The report with one more record of `rule`.
pub open spec fn recorded(
    entries: Seq<EntryView>,
    rule: RuleView,
    nanos: u128,
    count: usize,
    error: Option<Seq<char>>,
) -> Seq<EntryView> {
    match entry_from(entries, rule, 0) {
        Some(i) => entries.update(
            i,
            EntryView { rule, line: entries[i].line.plus(nanos, count, error) },
        ),
        None => entries.push(
            EntryView { rule, line: first_line(rule.description, nanos, count, error) },
        ),
    }
}

/// Timing, match counts and failures of rules, in the order in which they were
/// first seen.
#[derive(Clone, Debug)]
pub struct BenchmarkReport {
    rules: Vec<RuleBenchmark>,
    specs: Vec<RuleSpec>,
    error_counts: Vec<usize>,
    last_errors: Vec<Option<String>>,
}

impl View for BenchmarkReport {
    type V = Seq<EntryView>;

    closed spec fn view(&self) -> Seq<EntryView> {
        Seq::new(
            self.rules@.len(),
            |i: int|
                EntryView {
                    rule: self.specs@[i]@,
                    line: LineView {
                        description: self.rules@[i].description@,
                        duration: self.rules@[i].duration,
                        match_count: self.rules@[i].match_count,
                        count: self.error_counts@[i],
                        last: error_view(self.last_errors@[i]),
                    },
                },
        )
    }
}

/// The lines of entries.
pub open spec fn entry_lines(entries: Seq<EntryView>) -> Seq<LineView> {
    entries.map_values(|e: EntryView| e.line)
}

/// The total time of the first rules.
pub open spec fn total_time(entries: Seq<EntryView>) -> u128
    decreases entries.len(),
{
    if entries.len() == 0 {
        0
    } else {
        sum_u128(total_time(entries.drop_last()), entries.last().line.duration)
    }
}

/// The first entry with a failure, from `i` on.
pub open spec fn failing_from(entries: Seq<EntryView>, i: int) -> Option<int>
    decreases entries.len() - i,
{
    if !(0 <= i < entries.len()) {
        None
    } else if entries[i].line.count > 0 {
        Some(i)
    } else {
        failing_from(entries, i + 1)
    }
}

/// The last of the slowest among the first `n` entries.
pub open spec fn slowest_of(entries: Seq<EntryView>, n: int) -> int
    decreases n,
{
    if n <= 1 {
        0
    } else {
        let best = slowest_of(entries, n - 1);
        if entries[n - 1].line.duration >= entries[best].line.duration {
            n - 1
        } else {
            best
        }
    }
}

proof fn lemma_slowest_of(entries: Seq<EntryView>, n: int)
    requires
        0 < n <= entries.len(),
    ensures
        0 <= slowest_of(entries, n) < n,
    decreases n,
{
    if n > 1 {
        lemma_slowest_of(entries, n - 1);
    }
}

/// The rule named slowest took at least as long as every other.
pub proof fn slowest_rule_took_longest(entries: Seq<EntryView>, i: int)
    requires
        0 <= i < entries.len(),
    ensures
        ({
            let slowest = slowest_of(entries, entries.len() as int);
            0 <= slowest < entries.len() && entries[i].line.duration
                <= entries[slowest].line.duration
        }),
{
    lemma_slowest(entries, entries.len() as int, i);
}

proof fn lemma_slowest(entries: Seq<EntryView>, n: int, i: int)
    requires
        0 <= i < n <= entries.len(),
    ensures
        0 <= slowest_of(entries, n) < n,
        entries[i].line.duration <= entries[slowest_of(entries, n)].line.duration,
    decreases n,
{
    lemma_slowest_of(entries, n);
    if n > 1 {
        if i < n - 1 {
            lemma_slowest(entries, n - 1, i);
        } else {
            lemma_slowest_of(entries, n - 1);
        }
    }
}

/// Where `line` stands among lines that are ordered from slow to fast: behind
/// all that took as long.
pub open spec fn slow_place(lines: Seq<LineView>, line: LineView, i: int) -> int
    decreases lines.len() - i,
{
    if 0 <= i < lines.len() && lines[i].duration >= line.duration {
        slow_place(lines, line, i + 1)
    } else {
        i
    }
}

/// `lines` from slow to fast, equally slow ones in their order.
pub open spec fn slow_to_fast(lines: Seq<LineView>) -> Seq<LineView>
    decreases lines.len(),
{
    if lines.len() == 0 {
        Seq::empty()
    } else {
        let before = slow_to_fast(lines.drop_last());
        before.insert(slow_place(before, lines.last(), 0), lines.last())
    }
}

proof fn lemma_slow_place(lines: Seq<LineView>, line: LineView, i: int)
    requires
        0 <= i <= lines.len(),
    ensures
        i <= slow_place(lines, line, i) <= lines.len(),
        forall|k: int|
            i <= k < slow_place(lines, line, i) ==> #[trigger] lines[k].duration >= line.duration,
        slow_place(lines, line, i) < lines.len() ==> lines[slow_place(lines, line, i)].duration
            < line.duration,
    decreases lines.len() - i,
{
    if i < lines.len() && lines[i].duration >= line.duration {
        lemma_slow_place(lines, line, i + 1);
    }
}

/// Ordering lines from slow to fast keeps all of them.
pub proof fn slow_to_fast_is_an_ordering(lines: Seq<LineView>)
    ensures
        slow_to_fast(lines).to_multiset() =~= lines.to_multiset(),
        forall|i: int, j: int|
            0 <= i <= j < slow_to_fast(lines).len() ==> (#[trigger] slow_to_fast(lines)[i]).duration
                >= (#[trigger] slow_to_fast(lines)[j]).duration,
    decreases lines.len(),
{
    broadcast use vstd::seq_lib::group_to_multiset_ensures;

    if lines.len() > 0 {
        slow_to_fast_is_an_ordering(lines.drop_last());
        let before = slow_to_fast(lines.drop_last());
        let line = lines.last();
        let place = slow_place(before, line, 0);
        lemma_slow_place(before, line, 0);
        let after = slow_to_fast(lines);
        assert(lines =~= lines.drop_last().push(line));
        assert forall|i: int, j: int| 0 <= i <= j < after.len() implies (
        #[trigger] after[i]).duration >= (#[trigger] after[j]).duration by {
            let p = if i < place {
                i
            } else {
                i - 1
            };
            let q = if j < place {
                j
            } else {
                j - 1
            };
            if i != place && j != place {
                assert(after[i] == before[p] && after[j] == before[q]);
            } else if i == place && j > place {
                assert(after[j] == before[q]);
                assert(before[place].duration >= before[q].duration);
            } else if i < place && j == place {
                assert(after[i] == before[i]);
            }
        }
    }
}

fn copy_option(text: &Option<String>) -> (r: Option<String>)
    ensures
        error_view(r) == error_view(*text),
{
    match text {
        Some(text) => Some(copy_text(text.as_str())),
        None => None,
    }
}

fn add_nanos(a: u128, b: u128) -> (r: u128)
    ensures
        r == sum_u128(a, b),
{
    if b > u128::MAX - a {
        u128::MAX
    } else {
        a + b
    }
}

fn add_count(a: usize, b: usize) -> (r: usize)
    ensures
        r == sum_usize(a, b),
{
    if b > usize::MAX - a {
        usize::MAX
    } else {
        a + b
    }
}

impl BenchmarkReport {
    /// One entry per rule, and no rule twice.
    pub closed spec fn wf(&self) -> bool {
        &&& self.specs@.len() == self.rules@.len()
        &&& self.error_counts@.len() == self.rules@.len()
        &&& self.last_errors@.len() == self.rules@.len()
        &&& rules_apart(self@)
    }

    /// A report without a record.
    pub fn new() -> (r: BenchmarkReport)
        ensures
            r.wf(),
            r@ == Seq::<EntryView>::empty(),
    {
        let r = BenchmarkReport {
            rules: Vec::new(),
            specs: Vec::new(),
            error_counts: Vec::new(),
            last_errors: Vec::new(),
        };
        assert(r@ =~= Seq::<EntryView>::empty());
        r
    }

    /// The rules with timing and match counts, in the order in which they were
    /// first seen.
    pub fn rules(&self) -> (r: &[RuleBenchmark])
        requires
            self.wf(),
        ensures
            r@.len() == self@.len(),
            forall|i: int|
                0 <= i < r@.len() ==> (#[trigger] r@[i]).description@ == self@[i].line.description
                    && r@[i].duration == self@[i].line.duration && r@[i].match_count
                    == self@[i].line.match_count,
    {
        self.rules.as_slice()
    }

    /// Nanoseconds spent on all rules.
    pub fn total_duration(&self) -> (r: u128)
        requires
            self.wf(),
        ensures
            r == total_time(self@),
    {
        let mut total: u128 = 0;
        let mut i: usize = 0;
        assert(self@.take(0) =~= Seq::<EntryView>::empty());
        while i < self.rules.len()
            invariant
                self.wf(),
                i <= self.rules@.len(),
                self@.len() == self.rules@.len(),
                total == total_time(self@.take(i as int)),
            decreases self.rules@.len() - i,
        {
            assert(self@.take(i + 1).drop_last() =~= self@.take(i as int));
            assert(self@.take(i + 1).last() == self@[i as int]);
            total = add_nanos(total, self.rules[i].duration);
            i = i + 1;
        }
        assert(self@.take(i as int) =~= self@);
        total
    }

    fn line(&self, i: usize) -> (r: RuleErrorReport)
        requires
            self.wf(),
            i < self@.len(),
        ensures
            r@ == self@[i as int].line,
    {
        RuleErrorReport {
            description: copy_text(self.rules[i].description.as_str()),
            duration: self.rules[i].duration,
            match_count: self.rules[i].match_count,
            count: self.error_counts[i],
            last: copy_option(&self.last_errors[i]),
        }
    }

    /// The rules with their failures, in the order in which they were first
    /// seen.
    pub fn rules_with_errors(&self) -> (r: Vec<RuleErrorReport>)
        requires
            self.wf(),
        ensures
            line_views(r@) == entry_lines(self@),
    {
        let mut lines: Vec<RuleErrorReport> = Vec::new();
        let mut i: usize = 0;
        while i < self.rules.len()
            invariant
                self.wf(),
                i <= self.rules@.len(),
                self@.len() == self.rules@.len(),
                lines@.len() == i,
                forall|k: int| 0 <= k < i ==> (#[trigger] lines@[k])@ == self@[k].line,
            decreases self.rules@.len() - i,
        {
            lines.push(self.line(i));
            i = i + 1;
        }
        assert(line_views(lines@) =~= entry_lines(self@));
        lines
    }

    /// The rules with their failures, from slow to fast.
    pub fn slowest_first(&self) -> (r: Vec<RuleErrorReport>)
        requires
            self.wf(),
        ensures
            line_views(r@) == slow_to_fast(entry_lines(self@)),
    {
        let ghost all = entry_lines(self@);
        let mut lines: Vec<RuleErrorReport> = Vec::new();
        let mut i: usize = 0;
        assert(all.take(0) =~= Seq::<LineView>::empty());
        assert(line_views(lines@) =~= Seq::<LineView>::empty());
        while i < self.rules.len()
            invariant
                self.wf(),
                all == entry_lines(self@),
                i <= self.rules@.len(),
                self@.len() == self.rules@.len(),
                line_views(lines@) == slow_to_fast(all.take(i as int)),
            decreases self.rules@.len() - i,
        {
            let line = self.line(i);
            let ghost before = line_views(lines@);
            let mut place: usize = 0;
            while place < lines.len() && lines[place].duration >= line.duration
                invariant
                    place <= lines@.len(),
                    before == line_views(lines@),
                    slow_place(before, line@, 0) == slow_place(before, line@, place as int),
                decreases lines@.len() - place,
            {
                assert(before[place as int] == lines@[place as int]@);
                place = place + 1;
            }
            assert(place < lines@.len() ==> before[place as int] == lines@[place as int]@);
            let ghost added = line@;
            lines.insert(place, line);
            assert(line_views(lines@) =~= before.insert(place as int, added));
            assert(all.take(i + 1).drop_last() =~= all.take(i as int));
            assert(all.take(i + 1).last() == added);
            i = i + 1;
        }
        assert(all.take(i as int) =~= all);
        lines
    }

    /// The first rule on which matching ever failed.
    pub fn first_rule_error(&self) -> (r: Option<RuleErrorReport>)
        requires
            self.wf(),
        ensures
            match r {
                Some(line) => failing_from(self@, 0) is Some && line@ == self@[failing_from(
                    self@,
                    0,
                )->Some_0].line && line.count > 0,
                None => failing_from(self@, 0) is None,
            },
    {
        let mut i: usize = 0;
        while i < self.rules.len()
            invariant
                self.wf(),
                i <= self.rules@.len(),
                self@.len() == self.rules@.len(),
                failing_from(self@, 0) == failing_from(self@, i as int),
            decreases self.rules@.len() - i,
        {
            if self.error_counts[i] > 0 {
                return Some(self.line(i));
            }
            i = i + 1;
        }
        None
    }

    /// The rule that took longest, the last one of several.
    pub fn slowest_rule(&self) -> (r: Option<&RuleBenchmark>)
        requires
            self.wf(),
        ensures
            match r {
                Some(rule) => self@.len() > 0 && ({
                    let line = self@[slowest_of(self@, self@.len() as int)].line;
                    rule.description@ == line.description && rule.duration == line.duration
                        && rule.match_count == line.match_count
                }),
                None => self@.len() == 0,
            },
    {
        if self.rules.len() == 0 {
            return None;
        }
        let mut best: usize = 0;
        let mut i: usize = 1;
        while i < self.rules.len()
            invariant
                self.wf(),
                1 <= i <= self.rules@.len(),
                self@.len() == self.rules@.len(),
                best < i,
                best == slowest_of(self@, i as int),
            decreases self.rules@.len() - i,
        {
            if self.rules[i].duration >= self.rules[best].duration {
                best = i;
            }
            i = i + 1;
        }
        Some(&self.rules[best])
    }

    fn position(&self, rule: &RuleSpec) -> (r: Option<usize>)
        requires
            self.wf(),
        ensures
            match r {
                Some(i) => entry_from(self@, rule@, 0) == Some(i as int) && i < self.rules@.len(),
                None => entry_from(self@, rule@, 0) is None,
            },
    {
        let mut i: usize = 0;
        while i < self.specs.len()
            invariant
                self.wf(),
                i <= self.specs@.len(),
                self@.len() == self.specs@.len(),
                entry_from(self@, rule@, 0) == entry_from(self@, rule@, i as int),
            decreases self.specs@.len() - i,
        {
            if self.specs[i].same(rule) {
                return Some(i);
            }
            i = i + 1;
        }
        None
    }

    /// Adds what one text took.
    pub fn record(
        &mut self,
        rule: &RuleSpec,
        nanos: u128,
        match_count: usize,
        match_error: &Option<String>,
    )
        requires
            old(self).wf(),
        ensures
            final(self).wf(),
            final(self)@ == recorded(
                old(self)@,
                rule@,
                nanos,
                match_count,
                error_view(*match_error),
            ),
    {
        let ghost before = self@;
        let ghost error = error_view(*match_error);
        proof {
            recording_keeps_rules_apart(before, rule@, nanos, match_count, error);
        }
        match self.position(rule) {
            Some(i) => {
                let old_line = self.line(i);
                assert(old_line@ == before[i as int].line);
                proof {
                    lemma_entry_from(before, rule@, 0);
                }
                let updated = RuleBenchmark {
                    description: old_line.description,
                    duration: add_nanos(old_line.duration, nanos),
                    match_count: add_count(old_line.match_count, match_count),
                };
                self.rules.set(i, updated);
                if match_error.is_some() {
                    self.error_counts.set(i, add_count(old_line.count, 1));
                    self.last_errors.set(i, copy_option(match_error));
                }
                assert(self@ =~= recorded(before, rule@, nanos, match_count, error));
            },
            None => {
                self.rules.push(
                    RuleBenchmark {
                        description: copy_text(rule.description.as_str()),
                        duration: nanos,
                        match_count,
                    },
                );
                self.specs.push(rule.duplicate());
                self.error_counts.push(
                    if match_error.is_some() {
                        1
                    } else {
                        0
                    },
                );
                self.last_errors.push(copy_option(match_error));
                assert(self@ =~= recorded(before, rule@, nanos, match_count, error));
            },
        }
    }
}

pub proof fn lemma_entry_from(entries: Seq<EntryView>, rule: RuleView, i: int)
    requires
        0 <= i,
    ensures
        entry_from(entries, rule, i) is Some ==> 0 <= entry_from(entries, rule, i)->Some_0
            < entries.len() && entries[entry_from(entries, rule, i)->Some_0].rule == rule,
    decreases entries.len() - i,
{
    if i < entries.len() && entries[i].rule != rule {
        lemma_entry_from(entries, rule, i + 1);
    }
}

/// No rule stands in the report twice.
pub open spec fn rules_apart(entries: Seq<EntryView>) -> bool {
    forall|i: int, j: int|
        0 <= i < j < entries.len() ==> (#[trigger] entries[i]).rule != (#[trigger] entries[j]).rule
}

pub proof fn lemma_entry_missing(entries: Seq<EntryView>, rule: RuleView, i: int, k: int)
    requires
        0 <= i <= k < entries.len(),
        entry_from(entries, rule, i) is None,
    ensures
        entries[k].rule != rule,
    decreases entries.len() - i,
{
    if i < k {
        lemma_entry_missing(entries, rule, i + 1, k);
    }
}

/// Recording never gives a rule a second line.
pub proof fn recording_keeps_rules_apart(
    entries: Seq<EntryView>,
    rule: RuleView,
    nanos: u128,
    match_count: usize,
    error: Option<Seq<char>>,
)
    requires
        rules_apart(entries),
    ensures
        rules_apart(recorded(entries, rule, nanos, match_count, error)),
{
    let next = recorded(entries, rule, nanos, match_count, error);
    lemma_entry_from(entries, rule, 0);
    assert forall|i: int, j: int| 0 <= i < j < next.len() implies (#[trigger] next[i]).rule != (
    #[trigger] next[j]).rule by {
        if entry_from(entries, rule, 0) is None {
            lemma_entry_missing(entries, rule, 0, i);
        }
        assert(i < entries.len());
    }
}

impl Default for BenchmarkReport {
    fn default() -> (r: Self)
        ensures
            r.wf(),
            r@ == Seq::<EntryView>::empty(),
    {
        BenchmarkReport::new()
    }
}

} // verus!
