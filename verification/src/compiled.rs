//! Rules made ready for matching.

use vstd::prelude::*;
use vstd::string::*;

use crate::config::{
    capture_views, rule_views, CaptureRef, CaptureView, RuleSpec, RuleStyle, RuleStyleView,
    RuleView,
};
use crate::matching::{CompiledStyle, TargetView};
use crate::metadata::{byte_len, text_byte_len};
use crate::pcre::{
    build_regex, built_regex, capture_names, error_text, error_words, group_name_views,
    regex_group_names, regex_groups, Pattern,
};
use crate::style::Style;
use crate::terminal_text::{escape_untrusted, escaped};
use crate::text::{concat, concat3, copy_text, decimal, decimal_text, same_text};

use pcre2::bytes::Regex;

verus! {

/// Rules that a highlighter may have.
pub const MAX_COMPILED_RULES: usize = 512;

/// Bytes that the patterns of a highlighter may have together.
pub const MAX_TOTAL_PATTERN_BYTES: usize = 262144;

/// Memory that machine code of a pattern may use for its stack.
pub const PCRE2_JIT_STACK_LIMIT_BYTES: usize = 32768;

/// What stands before each pattern: how much work one match may take, and how
/// deep it may go.
pub const PATTERN_LIMITS: &'static str = "(*LIMIT_MATCH=100000)(*LIMIT_DEPTH=1000)";

/// A pattern that no highlighter accepts.
pub const INVALID_PATTERN: &'static str = "(?<";

/// Why rules do not make a highlighter.
#[derive(Debug)]
pub enum HighlightError {
    Regex {
        /// What the rule is called, or what is wrong with the configuration.
        description: String,
        /// Why the pattern does not compile.
        source: pcre2::Error,
    },
}

/// The content of a [`HighlightError`]: the subject, and what PCRE2 says.
pub struct HighlightIssue {
    pub subject: Seq<char>,
    pub reason: Seq<char>,
}

impl HighlightIssue {
    /// The issue in words.
    pub open spec fn message(self) -> Seq<char> {
        "rule '"@ + self.subject + "' failed to compile: "@ + self.reason
    }
}

impl View for HighlightError {
    type V = HighlightIssue;

    open spec fn view(&self) -> HighlightIssue {
        match self {
            HighlightError::Regex { description, source } => HighlightIssue {
                subject: description@,
                reason: error_words(*source),
            },
        }
    }
}

impl HighlightError {
    /// The error in words.
    pub fn message(&self) -> (r: String)
        ensures
            r@ == self@.message(),
    {
        match self {
            HighlightError::Regex { description, source } => {
                let head = concat3("rule '", description.as_str(), "' failed to compile: ");
                let reason = error_text(source);
                concat(head.as_str(), reason.as_str())
            },
        }
    }
}

/// A rule ready for matching.
#[derive(Clone, Debug)]
pub struct CompiledRule {
    pub spec: RuleSpec,
    pub regex: Pattern,
    pub style: CompiledStyle,
}

/// The content of a [`CompiledRule`].
pub struct CompiledView {
    pub rule: RuleView,
    pub regex: Regex,
    pub target: TargetView,
}

impl View for CompiledRule {
    type V = CompiledView;

    open spec fn view(&self) -> CompiledView {
        CompiledView { rule: self.spec@, regex: self.regex@, target: self.style@ }
    }
}

pub open spec fn compiled_views(rules: Seq<CompiledRule>) -> Seq<CompiledView> {
    rules.map_values(|r: CompiledRule| r@)
}

/// What PCRE2 makes of the pattern of a rule: `^` and `$` match at each line,
/// and lines end as on any system.
pub open spec fn rule_regex(regex: Seq<char>) -> Result<Regex, pcre2::Error> {
    built_regex(PATTERN_LIMITS@ + regex, true, true, true, PCRE2_JIT_STACK_LIMIT_BYTES as int)
}

/// What is wrong with a configuration, as an issue.
pub open spec fn configuration_issue(message: Seq<char>) -> HighlightIssue {
    HighlightIssue {
        subject: escaped(message),
        reason: error_words(
            built_regex(
                INVALID_PATTERN@,
                false,
                false,
                false,
                PCRE2_JIT_STACK_LIMIT_BYTES as int,
            )->Err_0,
        ),
    }
}

/// The last of the first `n` groups that has a name.
pub open spec fn named_group(names: Seq<Option<Seq<char>>>, name: Seq<char>, n: int) -> Option<int>
    decreases n,
{
    if n <= 0 {
        None
    } else if names[n - 1] == Some(name) {
        Some(n - 1)
    } else {
        named_group(names, name, n - 1)
    }
}

/// The group that a reference stands for.
pub open spec fn group_of(
    capture: CaptureView,
    groups: int,
    names: Seq<Option<Seq<char>>>,
) -> Option<int> {
    match capture {
        CaptureView::Index(n) => if n < groups {
            Some(n as int)
        } else {
            None
        },
        CaptureView::Name(name) => named_group(names, name, names.len() as int),
    }
}

/// How a reference is written.
pub open spec fn capture_text(capture: CaptureView) -> Seq<char> {
    match capture {
        CaptureView::Index(n) => decimal(n as nat),
        CaptureView::Name(name) => name,
    }
}

/// The first reference, from `i` on, that stands for no group.
pub open spec fn missing_group(
    captures: Seq<(CaptureView, Style)>,
    groups: int,
    names: Seq<Option<Seq<char>>>,
    i: int,
) -> Option<int>
    decreases captures.len() - i,
{
    if !(0 <= i < captures.len()) {
        None
    } else if group_of(captures[i].0, groups, names) is None {
        Some(i)
    } else {
        missing_group(captures, groups, names, i + 1)
    }
}

/// References with the groups that they stand for.
pub open spec fn resolved(
    captures: Seq<(CaptureView, Style)>,
    groups: int,
    names: Seq<Option<Seq<char>>>,
) -> Seq<(usize, Style)> {
    captures.map_values(
        |p: (CaptureView, Style)| (group_of(p.0, groups, names)->Some_0 as usize, p.1),
    )
}

/// What is wrong with a style whose reference stands for no group.
pub open spec fn capture_issue(description: Seq<char>, capture: CaptureView) -> HighlightIssue {
    configuration_issue(
        escaped(description) + " references capture '"@ + escaped(capture_text(capture))
            + "' that does not exist"@,
    )
}

/// What the style of a rule colors, given the groups of its pattern; or what
/// is wrong with it.
pub open spec fn style_target(
    rule: RuleView,
    groups: int,
    names: Seq<Option<Seq<char>>>,
) -> Result<TargetView, HighlightIssue> {
    match rule.style {
        RuleStyleView::Whole(style) => Ok(TargetView::Whole(style)),
        RuleStyleView::Captures(captures) => match missing_group(captures, groups, names, 0) {
            Some(i) => Err(capture_issue(rule.description, captures[i].0)),
            None => Ok(TargetView::Captures(resolved(captures, groups, names))),
        },
    }
}

/// What a rule compiles to, or why it does not.
pub open spec fn compiled(rule: RuleView) -> Result<CompiledView, HighlightIssue> {
    match rule_regex(rule.regex) {
        Err(error) => Err(
            HighlightIssue { subject: escaped(rule.description), reason: error_words(error) },
        ),
        Ok(regex) => match style_target(rule, regex_groups(regex), regex_group_names(regex)) {
            Ok(target) => Ok(CompiledView { rule, regex, target }),
            Err(issue) => Err(issue),
        },
    }
}

/// The exclusive rules before the others, each in their order.
pub open spec fn exclusive_first(rules: Seq<RuleView>) -> Seq<RuleView> {
    rules.filter(|r: RuleView| r.exclusive) + rules.filter(|r: RuleView| !r.exclusive)
}

/// What the rules compile to, or the first issue.
pub open spec fn compiled_all(rules: Seq<RuleView>) -> Result<Seq<CompiledView>, HighlightIssue>
    decreases rules.len(),
{
    if rules.len() == 0 {
        Ok(Seq::empty())
    } else {
        match compiled_all(rules.drop_last()) {
            Err(issue) => Err(issue),
            Ok(before) => match compiled(rules.last()) {
                Err(issue) => Err(issue),
                Ok(view) => Ok(before.push(view)),
            },
        }
    }
}

/// Bytes of the patterns of rules.
pub open spec fn pattern_total(rules: Seq<RuleView>) -> int
    decreases rules.len(),
{
    if rules.len() == 0 {
        0
    } else {
        pattern_total(rules.drop_last()) + byte_len(rules.last().regex)
    }
}

/// `n`, or the largest `usize`.
pub open spec fn in_usize(n: int) -> nat {
    if n <= usize::MAX {
        n as nat
    } else {
        usize::MAX as nat
    }
}

/// What is wrong with too many rules or too much pattern text.
pub open spec fn size_issue(rules: Seq<RuleView>) -> HighlightIssue {
    configuration_issue(
        "configuration contains "@ + decimal(rules.len()) + " rules and "@ + decimal(
            in_usize(pattern_total(rules)),
        ) + " pattern bytes; limits are 512 rules and 262144 bytes"@,
    )
}

/// What the rules of a configuration compile to, or the issue with them.
pub open spec fn compiled_rules(rules: Seq<RuleView>) -> Result<Seq<CompiledView>, HighlightIssue> {
    if rules.len() > MAX_COMPILED_RULES || pattern_total(rules) > MAX_TOTAL_PATTERN_BYTES {
        Err(size_issue(rules))
    } else {
        compiled_all(exclusive_first(rules))
    }
}

/// An error that says what is wrong with a configuration.
fn configuration_validation_error(message: &str) -> (r: HighlightError)
    ensures
        r@ == configuration_issue(message@),
{
    let description = escape_untrusted(message);
    match build_regex(INVALID_PATTERN, false, false, false, PCRE2_JIT_STACK_LIMIT_BYTES) {
        Err(source) => HighlightError::Regex { description, source },
        Ok(_) => unreached(),
    }
}

proof fn lemma_named_group(names: Seq<Option<Seq<char>>>, name: Seq<char>, n: int)
    requires
        n <= names.len(),
    ensures
        match named_group(names, name, n) {
            Some(i) => 0 <= i < n && names[i] == Some(name) && (forall|k: int|
                i < k < n ==> #[trigger] names[k] != Some(name)),
            None => forall|k: int| 0 <= k < n ==> #[trigger] names[k] != Some(name),
        },
    decreases n,
{
    if n > 0 && names[n - 1] != Some(name) {
        lemma_named_group(names, name, n - 1);
    }
}

/// The last group of a name.
fn capture_group_index(names: &Vec<Option<String>>, name: &str) -> (r: Option<usize>)
    ensures
        match r {
            Some(i) => named_group(group_name_views(names@), name@, names@.len() as int) == Some(
                i as int,
            ),
            None => named_group(group_name_views(names@), name@, names@.len() as int) is None,
        },
{
    let ghost views = group_name_views(names@);
    let mut n: usize = names.len();
    while n > 0
        invariant
            n <= names@.len(),
            views == group_name_views(names@),
            named_group(views, name@, names@.len() as int) == named_group(views, name@, n as int),
        decreases n,
    {
        n = n - 1;
        assert(views[n as int] == (match names@[n as int] {
            Some(text) => Some(text@),
            None => None,
        }));
        if let Some(candidate) = &names[n] {
            if same_text(candidate.as_str(), name) {
                return Some(n);
            }
        }
    }
    None
}

/// The group that a reference stands for.
fn group_index(capture: &CaptureRef, groups: usize, names: &Vec<Option<String>>) -> (r: Option<
    usize,
>)
    ensures
        match r {
            Some(i) => group_of(capture@, groups as int, group_name_views(names@)) == Some(
                i as int,
            ),
            None => group_of(capture@, groups as int, group_name_views(names@)) is None,
        },
{
    match capture {
        CaptureRef::Index(n) => if *n < groups {
            Some(*n)
        } else {
            None
        },
        CaptureRef::Name(name) => {
            assert(group_name_views(names@).len() == names@.len());
            capture_group_index(names, name.as_str())
        },
    }
}

fn written_capture(capture: &CaptureRef) -> (r: String)
    ensures
        r@ == capture_text(capture@),
{
    match capture {
        CaptureRef::Index(n) => decimal_text(*n as u64),
        CaptureRef::Name(name) => copy_text(name.as_str()),
    }
}

/// What the style of a rule colors, given how many groups the pattern has and
/// what they are called. References to groups that it does not have are
/// rejected.
pub fn resolve_capture_references(
    rule: &RuleSpec,
    groups: usize,
    names: &Vec<Option<String>>,
) -> (r: Result<CompiledStyle, HighlightError>)
    ensures
        match r {
            Ok(style) => style_target(rule@, groups as int, group_name_views(names@)) == Ok::<
                TargetView,
                HighlightIssue,
            >(style@),
            Err(error) => style_target(rule@, groups as int, group_name_views(names@)) == Err::<
                TargetView,
                HighlightIssue,
            >(error@),
        },
{
    let ghost name_views = group_name_views(names@);
    match &rule.style {
        RuleStyle::Whole(style) => Ok(CompiledStyle::Whole(*style)),
        RuleStyle::Captures(captures) => {
            let ghost views = capture_views(captures@);
            let mut found: Vec<(usize, Style)> = Vec::new();
            let mut i: usize = 0;
            while i < captures.len()
                invariant
                    i <= captures@.len(),
                    views == capture_views(captures@),
                    rule@.style == RuleStyleView::Captures(views),
                    name_views == group_name_views(names@),
                    found@.len() == i,
                    forall|k: int|
                        0 <= k < i ==> #[trigger] found@[k] == resolved(
                            views,
                            groups as int,
                            name_views,
                        )[k],
                    missing_group(views, groups as int, name_views, 0) == missing_group(
                        views,
                        groups as int,
                        name_views,
                        i as int,
                    ),
                decreases captures@.len() - i,
            {
                assert(views[i as int] == (captures@[i as int].0@, captures@[i as int].1));
                match group_index(&captures[i].0, groups, names) {
                    Some(index) => {
                        found.push((index, captures[i].1));
                    },
                    None => {
                        let head = concat(
                            escape_untrusted(rule.description.as_str()).as_str(),
                            " references capture '",
                        );
                        let name = written_capture(&captures[i].0);
                        let message = concat3(
                            head.as_str(),
                            escape_untrusted(name.as_str()).as_str(),
                            "' that does not exist",
                        );
                        return Err(configuration_validation_error(message.as_str()));
                    },
                }
                i = i + 1;
            }
            assert(found@ =~= resolved(views, groups as int, name_views));
            Ok(CompiledStyle::Captures(found))
        },
    }
}

/// Makes a rule ready for matching.
fn compile_rule(rule: &RuleSpec) -> (r: Result<CompiledRule, HighlightError>)
    ensures
        match r {
            Ok(c) => compiled(rule@) == Ok::<CompiledView, HighlightIssue>(c@),
            Err(error) => compiled(rule@) == Err::<CompiledView, HighlightIssue>(error@),
        },
{
    let pattern = concat(PATTERN_LIMITS, rule.regex.as_str());
    match build_regex(pattern.as_str(), true, true, true, PCRE2_JIT_STACK_LIMIT_BYTES) {
        Err(source) => Err(
            HighlightError::Regex {
                description: escape_untrusted(rule.description.as_str()),
                source,
            },
        ),
        Ok(regex) => {
            let names = capture_names(&regex);
            match resolve_capture_references(rule, regex.group_count(), &names) {
                Err(error) => Err(error),
                Ok(style) => Ok(CompiledRule { spec: rule.duplicate(), regex, style }),
            }
        },
    }
}

proof fn lemma_filter_step(rules: Seq<RuleView>, i: int)
    requires
        0 <= i < rules.len(),
    ensures
        ({
            let yes = |r: RuleView| r.exclusive;
            let no = |r: RuleView| !r.exclusive;
            let r = rules[i];
            &&& rules.take(i + 1).filter(yes) == (if r.exclusive {
                rules.take(i).filter(yes).push(r)
            } else {
                rules.take(i).filter(yes)
            })
            &&& rules.take(i + 1).filter(no) == (if r.exclusive {
                rules.take(i).filter(no)
            } else {
                rules.take(i).filter(no).push(r)
            })
        }),
{
    reveal_with_fuel(Seq::filter, 2);
    assert(rules.take(i + 1).drop_last() =~= rules.take(i));
    assert(rules.take(i + 1).last() == rules[i]);
}

proof fn lemma_compiled_all_fails(rules: Seq<RuleView>, i: int)
    requires
        0 <= i <= rules.len(),
        compiled_all(rules.take(i)) is Err,
    ensures
        compiled_all(rules) == compiled_all(rules.take(i)),
    decreases rules.len() - i,
{
    if i < rules.len() {
        assert(rules.take(i + 1).drop_last() =~= rules.take(i));
        lemma_compiled_all_fails(rules, i + 1);
    } else {
        assert(rules.take(i) =~= rules);
    }
}

/// Copies of the exclusive rules, or of the others.
fn rules_that_are(rules: &Vec<RuleSpec>, exclusive: bool) -> (r: Vec<RuleSpec>)
    ensures
        rule_views(r@) == (if exclusive {
            rule_views(rules@).filter(|r: RuleView| r.exclusive)
        } else {
            rule_views(rules@).filter(|r: RuleView| !r.exclusive)
        }),
{
    let ghost all = rule_views(rules@);
    let ghost yes = |r: RuleView| r.exclusive;
    let ghost no = |r: RuleView| !r.exclusive;
    let mut kept: Vec<RuleSpec> = Vec::new();
    let mut i: usize = 0;
    proof {
        reveal_with_fuel(Seq::filter, 1);
        assert(all.take(0).filter(yes) =~= Seq::<RuleView>::empty());
        assert(all.take(0).filter(no) =~= Seq::<RuleView>::empty());
        assert(rule_views(kept@) =~= Seq::<RuleView>::empty());
    }
    while i < rules.len()
        invariant
            i <= rules@.len(),
            all == rule_views(rules@),
            yes == (|r: RuleView| r.exclusive),
            no == (|r: RuleView| !r.exclusive),
            rule_views(kept@) == (if exclusive {
                all.take(i as int).filter(yes)
            } else {
                all.take(i as int).filter(no)
            }),
        decreases rules@.len() - i,
    {
        let ghost before = rule_views(kept@);
        proof {
            lemma_filter_step(all, i as int);
        }
        assert(all[i as int] == rules@[i as int]@);
        if rules[i].exclusive == exclusive {
            kept.push(rules[i].duplicate());
            assert(rule_views(kept@) =~= before.push(all[i as int]));
        }
        i = i + 1;
    }
    assert(all.take(i as int) =~= all);
    kept
}

/// Appends the rules made ready for matching.
fn compile_each(rules: &Vec<RuleSpec>, out: &mut Vec<CompiledRule>) -> (r: Result<
    (),
    HighlightError,
>)
    ensures
        match r {
            Ok(_) => exists|added: Seq<CompiledView>|
                compiled_all(rule_views(rules@)) == Ok::<Seq<CompiledView>, HighlightIssue>(added)
                    && compiled_views(final(out)@) == compiled_views(old(out)@) + added,
            Err(error) => compiled_all(rule_views(rules@)) == Err::<Seq<CompiledView>, HighlightIssue>(
                error@,
            ),
        },
{
    let ghost all = rule_views(rules@);
    let ghost first = compiled_views(out@);
    let ghost mut added: Seq<CompiledView> = Seq::empty();
    let mut i: usize = 0;
    assert(compiled_views(out@) =~= first + added);
    assert(all.take(0) =~= Seq::<RuleView>::empty());
    while i < rules.len()
        invariant
            i <= rules@.len(),
            all == rule_views(rules@),
            compiled_all(all.take(i as int)) == Ok::<Seq<CompiledView>, HighlightIssue>(added),
            compiled_views(out@) == first + added,
            first == compiled_views(old(out)@),
        decreases rules@.len() - i,
    {
        assert(all.take(i + 1).drop_last() =~= all.take(i as int));
        assert(all.take(i + 1).last() == rules@[i as int]@);
        match compile_rule(&rules[i]) {
            Err(error) => {
                proof {
                    lemma_compiled_all_fails(all, i + 1);
                }
                return Err(error);
            },
            Ok(c) => {
                let ghost before = compiled_views(out@);
                let ghost view = c@;
                out.push(c);
                proof {
                    assert(compiled_views(out@) =~= before.push(view));
                    assert((first + added).push(view) =~= first + added.push(view));
                    added = added.push(view);
                }
            },
        }
        i = i + 1;
    }
    assert(all.take(i as int) =~= all);
    Ok(())
}

proof fn lemma_compiled_all_split(a: Seq<RuleView>, b: Seq<RuleView>)
    ensures
        compiled_all(a) is Err ==> compiled_all(a + b) == compiled_all(a),
        compiled_all(a) is Ok && compiled_all(b) is Err ==> compiled_all(a + b) == compiled_all(b),
        compiled_all(a) is Ok && compiled_all(b) is Ok ==> compiled_all(a + b) == Ok::<
            Seq<CompiledView>,
            HighlightIssue,
        >(compiled_all(a)->Ok_0 + compiled_all(b)->Ok_0),
    decreases b.len(),
{
    if b.len() == 0 {
        assert(a + b =~= a);
        if compiled_all(a) is Ok {
            assert(compiled_all(a)->Ok_0 + compiled_all(b)->Ok_0 =~= compiled_all(a)->Ok_0);
        }
    } else {
        assert((a + b).drop_last() =~= a + b.drop_last());
        assert((a + b).last() == b.last());
        lemma_compiled_all_split(a, b.drop_last());
        if compiled_all(a) is Ok && compiled_all(b) is Ok {
            let before = compiled_all(b.drop_last())->Ok_0;
            let view = compiled(b.last())->Ok_0;
            assert(compiled_all(a)->Ok_0 + before.push(view) =~= (compiled_all(a)->Ok_0
                + before).push(view));
        }
    }
}

proof fn lemma_pattern_total(rules: Seq<RuleView>, i: int)
    requires
        0 <= i <= rules.len(),
    ensures
        0 <= pattern_total(rules.take(i)) <= pattern_total(rules),
    decreases rules.len() - i,
{
    if i < rules.len() {
        assert(rules.take(i + 1).drop_last() =~= rules.take(i));
        lemma_pattern_total(rules, i + 1);
        lemma_pattern_positive(rules.take(i));
    } else {
        assert(rules.take(i) =~= rules);
        lemma_pattern_positive(rules);
    }
}

proof fn lemma_pattern_positive(rules: Seq<RuleView>)
    ensures
        pattern_total(rules) >= 0,
    decreases rules.len(),
{
    if rules.len() > 0 {
        lemma_pattern_positive(rules.drop_last());
    }
}

fn pattern_bytes(rules: &Vec<RuleSpec>) -> (r: usize)
    ensures
        r == in_usize(pattern_total(rule_views(rules@))),
{
    let ghost all = rule_views(rules@);
    let mut total: usize = 0;
    let mut i: usize = 0;
    assert(all.take(0) =~= Seq::<RuleView>::empty());
    while i < rules.len()
        invariant
            i <= rules@.len(),
            all == rule_views(rules@),
            total == in_usize(pattern_total(all.take(i as int))),
        decreases rules@.len() - i,
    {
        assert(all.take(i + 1).drop_last() =~= all.take(i as int));
        assert(all.take(i + 1).last() == rules@[i as int]@);
        proof {
            lemma_pattern_positive(all.take(i as int));
        }
        let bytes = text_byte_len(rules[i].regex.as_str());
        if bytes > usize::MAX - total {
            total = usize::MAX;
        } else {
            total = total + bytes;
        }
        i = i + 1;
    }
    assert(all.take(i as int) =~= all);
    proof {
        lemma_pattern_positive(all);
    }
    total
}

/// Makes the rules of a configuration ready for matching.
pub fn compile_rules(rules: &Vec<RuleSpec>) -> (r: Result<Vec<CompiledRule>, HighlightError>)
    ensures
        match r {
            Ok(c) => compiled_rules(rule_views(rules@)) == Ok::<Seq<CompiledView>, HighlightIssue>(
                compiled_views(c@),
            ),
            Err(error) => compiled_rules(rule_views(rules@)) == Err::<
                Seq<CompiledView>,
                HighlightIssue,
            >(error@),
        },
{
    let ghost all = rule_views(rules@);
    assert(all.len() == rules@.len());
    let bytes = pattern_bytes(rules);
    let count = rules.len();
    proof {
        lemma_pattern_positive(all);
    }
    if count > MAX_COMPILED_RULES || bytes > MAX_TOTAL_PATTERN_BYTES {
        let head = concat3(
            "configuration contains ",
            decimal_text(count as u64).as_str(),
            " rules and ",
        );
        let message = concat3(
            head.as_str(),
            decimal_text(bytes as u64).as_str(),
            " pattern bytes; limits are 512 rules and 262144 bytes",
        );
        return Err(configuration_validation_error(message.as_str()));
    }
    let exclusive = rules_that_are(rules, true);
    let others = rules_that_are(rules, false);
    proof {
        lemma_compiled_all_split(rule_views(exclusive@), rule_views(others@));
    }
    let mut compiled: Vec<CompiledRule> = Vec::new();
    let ghost none = compiled_views(compiled@);
    if let Err(error) = compile_each(&exclusive, &mut compiled) {
        return Err(error);
    }
    assert(none =~= Seq::<CompiledView>::empty());
    let ghost mid = compiled_views(compiled@);
    assert(compiled_all(rule_views(exclusive@)) == Ok::<Seq<CompiledView>, HighlightIssue>(mid)) by {
        let added = choose|added: Seq<CompiledView>|
            compiled_all(rule_views(exclusive@)) == Ok::<Seq<CompiledView>, HighlightIssue>(added)
                && mid == none + added;
        assert(none + added =~= added);
    }
    if let Err(error) = compile_each(&others, &mut compiled) {
        return Err(error);
    }
    Ok(compiled)
}

impl CompiledRule {
    pub fn duplicate(&self) -> (r: CompiledRule)
        ensures
            r@ == self@,
    {
        CompiledRule {
            spec: self.spec.duplicate(),
            regex: self.regex.duplicate(),
            style: self.style.duplicate(),
        }
    }
}

} // verus!
