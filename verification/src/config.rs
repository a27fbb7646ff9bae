//! Highlighting rules, configurations made of them, and what can be wrong with
//! a configuration.

use vstd::prelude::*;

use crate::metadata::{MetadataIssue, ProfileMetadataLimitError};
use crate::signals::copy_texts;
use crate::style::Style;
use crate::text::{
    chars_less, chars_of, concat, concat3, copy_text, same_text, text_less, text_views,
};

verus! {

/// A group of a regular expression: by number (0 is the whole match) or by
/// name.
#[derive(Clone, Debug)]
pub enum CaptureRef {
    Index(usize),
    Name(String),
}

/// The content of a [`CaptureRef`].
pub enum CaptureView {
    Index(usize),
    Name(Seq<char>),
}

impl View for CaptureRef {
    type V = CaptureView;

    open spec fn view(&self) -> CaptureView {
        match self {
            CaptureRef::Index(n) => CaptureView::Index(*n),
            CaptureRef::Name(name) => CaptureView::Name(name@),
        }
    }
}

/// The order of group references: numbers before names.
pub open spec fn capture_less(a: CaptureView, b: CaptureView) -> bool {
    match a {
        CaptureView::Index(m) => match b {
            CaptureView::Index(n) => m < n,
            CaptureView::Name(_) => true,
        },
        CaptureView::Name(s) => match b {
            CaptureView::Index(_) => false,
            CaptureView::Name(t) => text_less(s, t),
        },
    }
}

/// What a rule colors: the whole match, or groups of it. The groups are in
/// the order of their references, each at most once.
#[derive(Clone, Debug)]
pub enum RuleStyle {
    Whole(Style),
    Captures(Vec<(CaptureRef, Style)>),
}

/// The content of a [`RuleStyle`].
pub enum RuleStyleView {
    Whole(Style),
    Captures(Seq<(CaptureView, Style)>),
}

pub open spec fn capture_views(captures: Seq<(CaptureRef, Style)>) -> Seq<(CaptureView, Style)> {
    captures.map_values(|p: (CaptureRef, Style)| (p.0@, p.1))
}

impl View for RuleStyle {
    type V = RuleStyleView;

    open spec fn view(&self) -> RuleStyleView {
        match self {
            RuleStyle::Whole(style) => RuleStyleView::Whole(*style),
            RuleStyle::Captures(captures) => RuleStyleView::Captures(capture_views(captures@)),
        }
    }
}

/// One highlighting rule.
#[derive(Clone, Debug)]
pub struct RuleSpec {
    /// What the rule is called in messages and reports.
    pub description: String,
    /// The regular expression that visible text is matched against.
    pub regex: String,
    pub style: RuleStyle,
    /// Whether later rules leave what this one colored alone.
    pub exclusive: bool,
}

/// The content of a [`RuleSpec`].
pub struct RuleView {
    pub description: Seq<char>,
    pub regex: Seq<char>,
    pub style: RuleStyleView,
    pub exclusive: bool,
}

impl View for RuleSpec {
    type V = RuleView;

    open spec fn view(&self) -> RuleView {
        RuleView {
            description: self.description@,
            regex: self.regex@,
            style: self.style@,
            exclusive: self.exclusive,
        }
    }
}

pub open spec fn rule_views(rules: Seq<RuleSpec>) -> Seq<RuleView> {
    rules.map_values(|r: RuleSpec| r@)
}

impl CaptureRef {
    pub fn duplicate(&self) -> (r: CaptureRef)
        ensures
            r@ == self@,
    {
        match self {
            CaptureRef::Index(n) => CaptureRef::Index(*n),
            CaptureRef::Name(name) => CaptureRef::Name(copy_text(name.as_str())),
        }
    }

    pub fn same(&self, other: &CaptureRef) -> (r: bool)
        ensures
            r == (self@ == other@),
    {
        match self {
            CaptureRef::Index(m) => match other {
                CaptureRef::Index(n) => *m == *n,
                CaptureRef::Name(_) => false,
            },
            CaptureRef::Name(s) => match other {
                CaptureRef::Index(_) => false,
                CaptureRef::Name(t) => same_text(s.as_str(), t.as_str()),
            },
        }
    }

    /// Whether this reference stands before `other`.
    pub fn is_before(&self, other: &CaptureRef) -> (r: bool)
        ensures
            r == capture_less(self@, other@),
    {
        match self {
            CaptureRef::Index(m) => match other {
                CaptureRef::Index(n) => *m < *n,
                CaptureRef::Name(_) => true,
            },
            CaptureRef::Name(s) => match other {
                CaptureRef::Index(_) => false,
                CaptureRef::Name(t) => chars_less(
                    chars_of(s.as_str()).as_slice(),
                    chars_of(t.as_str()).as_slice(),
                ),
            },
        }
    }
}

impl RuleStyle {
    pub fn duplicate(&self) -> (r: RuleStyle)
        ensures
            r@ == self@,
    {
        match self {
            RuleStyle::Whole(style) => RuleStyle::Whole(*style),
            RuleStyle::Captures(captures) => {
                let mut copy: Vec<(CaptureRef, Style)> = Vec::new();
                let mut i: usize = 0;
                while i < captures.len()
                    invariant
                        i <= captures@.len(),
                        capture_views(copy@) == capture_views(captures@).take(i as int),
                    decreases captures@.len() - i,
                {
                    let ghost before = capture_views(copy@);
                    copy.push((captures[i].0.duplicate(), captures[i].1));
                    assert(capture_views(copy@) =~= before.push(
                        capture_views(captures@)[i as int],
                    ));
                    assert(capture_views(captures@).take(i + 1) =~= capture_views(captures@).take(
                        i as int,
                    ).push(capture_views(captures@)[i as int]));
                    i = i + 1;
                }
                assert(capture_views(captures@).take(i as int) =~= capture_views(captures@));
                RuleStyle::Captures(copy)
            },
        }
    }

    fn same(&self, other: &RuleStyle) -> (r: bool)
        ensures
            r == (self@ == other@),
    {
        match self {
            RuleStyle::Whole(a) => match other {
                RuleStyle::Whole(b) => *a == *b,
                RuleStyle::Captures(_) => false,
            },
            RuleStyle::Captures(a) => match other {
                RuleStyle::Whole(_) => false,
                RuleStyle::Captures(b) => {
                    let ghost x = capture_views(a@);
                    let ghost y = capture_views(b@);
                    if a.len() != b.len() {
                        assert(x.len() != y.len());
                        return false;
                    }
                    let mut i: usize = 0;
                    while i < a.len()
                        invariant
                            i <= a@.len(),
                            a@.len() == b@.len(),
                            x == capture_views(a@),
                            y == capture_views(b@),
                            self@ == RuleStyleView::Captures(x),
                            other@ == RuleStyleView::Captures(y),
                            forall|k: int| 0 <= k < i ==> #[trigger] x[k] == y[k],
                        decreases a@.len() - i,
                    {
                        assert(x[i as int] == (a@[i as int].0@, a@[i as int].1));
                        assert(y[i as int] == (b@[i as int].0@, b@[i as int].1));
                        if !(a[i].0.same(&b[i].0) && a[i].1 == b[i].1) {
                            return false;
                        }
                        i = i + 1;
                    }
                    assert(x =~= y);
                    true
                },
            },
        }
    }
}

impl RuleSpec {
    pub fn duplicate(&self) -> (r: RuleSpec)
        ensures
            r@ == self@,
    {
        RuleSpec {
            description: copy_text(self.description.as_str()),
            regex: copy_text(self.regex.as_str()),
            style: self.style.duplicate(),
            exclusive: self.exclusive,
        }
    }

    /// Whether the two rules are alike in everything.
    pub fn same(&self, other: &RuleSpec) -> (r: bool)
        ensures
            r == (self@ == other@),
    {
        same_text(self.description.as_str(), other.description.as_str()) && same_text(
            self.regex.as_str(),
            other.regex.as_str(),
        ) && self.style.same(&other.style) && self.exclusive == other.exclusive
    }
}

/// Appends copies of `from` to `rules`.
pub fn append_rules(rules: &mut Vec<RuleSpec>, from: &Vec<RuleSpec>)
    ensures
        rule_views(final(rules)@) == rule_views(old(rules)@) + rule_views(from@),
{
    let ghost first = rule_views(rules@);
    let ghost all = rule_views(from@);
    let mut i: usize = 0;
    assert(rule_views(rules@) =~= first + all.take(0));
    while i < from.len()
        invariant
            i <= from@.len(),
            all == rule_views(from@),
            rule_views(rules@) == first + all.take(i as int),
        decreases from@.len() - i,
    {
        let ghost before = rule_views(rules@);
        rules.push(from[i].duplicate());
        assert(rule_views(rules@) =~= before.push(all[i as int]));
        assert(all.take(i + 1) =~= all.take(i as int).push(all[i as int]));
        assert(rule_views(rules@) =~= first + all.take(i + 1));
        i = i + 1;
    }
    assert(all.take(i as int) =~= all);
}

/// Highlighting rules in the order they apply, and the profiles they came
/// from.
#[derive(Clone, Debug)]
pub struct PrismConfig {
    pub rules: Vec<RuleSpec>,
    pub enabled_profiles: Vec<String>,
}

/// The content of a [`PrismConfig`].
pub struct ConfigView {
    pub rules: Seq<RuleView>,
    pub enabled_profiles: Seq<Seq<char>>,
}

impl View for PrismConfig {
    type V = ConfigView;

    open spec fn view(&self) -> ConfigView {
        ConfigView {
            rules: rule_views(self.rules@),
            enabled_profiles: text_views(self.enabled_profiles@),
        }
    }
}

/// `names` with those of `more` that are not in it yet, in their order.
pub open spec fn with_new_names(names: Seq<Seq<char>>, more: Seq<Seq<char>>) -> Seq<Seq<char>>
    decreases more.len(),
{
    if more.len() == 0 {
        names
    } else {
        let before = with_new_names(names, more.drop_last());
        if before.contains(more.last()) {
            before
        } else {
            before.push(more.last())
        }
    }
}

/// Whether `name` is among `names`.
pub fn has_name(names: &Vec<String>, name: &str) -> (r: bool)
    ensures
        r == text_views(names@).contains(name@),
{
    let ghost all = text_views(names@);
    let mut i: usize = 0;
    while i < names.len()
        invariant
            i <= names@.len(),
            all == text_views(names@),
            forall|k: int| 0 <= k < i ==> #[trigger] all[k] != name@,
        decreases names@.len() - i,
    {
        assert(all[i as int] == names@[i as int]@);
        if same_text(names[i].as_str(), name) {
            return true;
        }
        i = i + 1;
    }
    false
}

impl Default for PrismConfig {
    fn default() -> (r: PrismConfig)
        ensures
            r@.rules.len() == 0,
            r@.enabled_profiles.len() == 0,
    {
        PrismConfig { rules: Vec::new(), enabled_profiles: Vec::new() }
    }
}

impl PrismConfig {
    pub fn duplicate(&self) -> (r: PrismConfig)
        ensures
            r@ == self@,
    {
        let mut rules: Vec<RuleSpec> = Vec::new();
        append_rules(&mut rules, &self.rules);
        assert(rule_views(rules@) =~= self@.rules);
        PrismConfig { rules, enabled_profiles: copy_texts(&self.enabled_profiles) }
    }

    /// This configuration followed by `other`: first this one's rules, and no
    /// profile name twice that was not there twice before.
    pub fn merge(self, other: PrismConfig) -> (r: PrismConfig)
        ensures
            r@.rules == self@.rules + other@.rules,
            r@.enabled_profiles == with_new_names(
                self@.enabled_profiles,
                other@.enabled_profiles,
            ),
    {
        let mut rules = self.rules;
        let mut rest = other.rules;
        let mut names = self.enabled_profiles;
        let ghost first = text_views(names@);
        let ghost more = text_views(other.enabled_profiles@);
        rules.append(&mut rest);
        assert(rule_views(rules@) =~= self@.rules + other@.rules);
        let mut i: usize = 0;
        assert(more.take(0) =~= Seq::<Seq<char>>::empty());
        while i < other.enabled_profiles.len()
            invariant
                i <= other.enabled_profiles@.len(),
                more == text_views(other.enabled_profiles@),
                text_views(names@) == with_new_names(first, more.take(i as int)),
            decreases other.enabled_profiles@.len() - i,
        {
            assert(more.take(i + 1).drop_last() =~= more.take(i as int));
            assert(more[i as int] == other.enabled_profiles@[i as int]@);
            let name = other.enabled_profiles[i].as_str();
            if !has_name(&names, name) {
                let ghost before = text_views(names@);
                names.push(copy_text(name));
                assert(text_views(names@) =~= before.push(more[i as int]));
            }
            i = i + 1;
        }
        assert(more.take(i as int) =~= more);
        PrismConfig { rules, enabled_profiles: names }
    }
}

/// No name stands twice in the list.
pub open spec fn no_name_twice(names: Seq<Seq<char>>) -> bool {
    forall|i: int, j: int| 0 <= i < j < names.len() ==> #[trigger] names[i] != #[trigger] names[j]
}

/// Merging never names a profile twice where the first configuration did not,
/// keeps the first configuration's names in front, and loses none of either.
pub proof fn merging_collects_profile_names(names: Seq<Seq<char>>, more: Seq<Seq<char>>)
    ensures
        no_name_twice(names) ==> no_name_twice(with_new_names(names, more)),
        names.len() <= with_new_names(names, more).len(),
        with_new_names(names, more).take(names.len() as int) == names,
        forall|k: int|
            0 <= k < more.len() ==> with_new_names(names, more).contains(#[trigger] more[k]),
        forall|k: int|
            0 <= k < with_new_names(names, more).len() ==> names.contains(
                #[trigger] with_new_names(names, more)[k],
            ) || more.contains(with_new_names(names, more)[k]),
    decreases more.len(),
{
    let all = with_new_names(names, more);
    if more.len() == 0 {
        assert(names.take(names.len() as int) =~= names);
        assert forall|k: int| 0 <= k < all.len() implies names.contains(#[trigger] all[k])
            || more.contains(all[k]) by {
            assert(names[k] == all[k]);
        }
    } else {
        let shorter = more.drop_last();
        let before = with_new_names(names, shorter);
        merging_collects_profile_names(names, shorter);
        assert(all.take(names.len() as int) =~= before.take(names.len() as int));
        assert forall|k: int| 0 <= k < more.len() implies all.contains(#[trigger] more[k]) by {
            if k < shorter.len() {
                assert(more[k] == shorter[k]);
                assert(before.contains(shorter[k]));
                let j = choose|j: int| 0 <= j < before.len() && before[j] == shorter[k];
                assert(all[j] == more[k]);
            } else if before.contains(more.last()) {
                let j = choose|j: int| 0 <= j < before.len() && before[j] == more.last();
                assert(all[j] == more[k]);
            } else {
                assert(all[before.len() as int] == more[k]);
            }
        }
        assert forall|k: int| 0 <= k < all.len() implies names.contains(#[trigger] all[k])
            || more.contains(all[k]) by {
            if k < before.len() {
                assert(all[k] == before[k]);
                if shorter.contains(before[k]) {
                    let j = choose|j: int| 0 <= j < shorter.len() && shorter[j] == before[k];
                    assert(more[j] == all[k]);
                }
            } else {
                assert(all[k] == more[more.len() - 1]);
            }
        }
        if no_name_twice(names) && !before.contains(more.last()) {
            assert forall|i: int, j: int| 0 <= i < j < all.len() implies #[trigger] all[i]
                != #[trigger] all[j] by {
                if j < before.len() {
                    assert(before[i] != before[j]);
                } else {
                    assert(before[i] == all[i]);
                }
            }
        }
    }
}

/// Why a configuration or a profile is rejected.
#[derive(Clone, Debug)]
pub enum ConfigError {
    UnknownProfile(String),
    /// The loop, as names with arrows between them.
    CyclicProfileInheritance(String),
    MissingProfileName,
    MissingProfileRuntime,
    ReservedProfileRuntime,
    InvalidStyle { description: String, message: String },
    InvalidPalette(String),
    InvalidCaptureKey { description: String, key: String },
    /// The document says more of a profile than the limits allow.
    Yaml(ProfileMetadataLimitError),
}

/// The content of a [`ConfigError`].
pub enum ConfigIssue {
    UnknownProfile(Seq<char>),
    CyclicProfileInheritance(Seq<char>),
    MissingProfileName,
    MissingProfileRuntime,
    ReservedProfileRuntime,
    InvalidStyle { description: Seq<char>, message: Seq<char> },
    InvalidPalette(Seq<char>),
    InvalidCaptureKey { description: Seq<char>, key: Seq<char> },
    Yaml(MetadataIssue),
}

impl View for ConfigError {
    type V = ConfigIssue;

    open spec fn view(&self) -> ConfigIssue {
        match self {
            ConfigError::UnknownProfile(name) => ConfigIssue::UnknownProfile(name@),
            ConfigError::CyclicProfileInheritance(names) => ConfigIssue::CyclicProfileInheritance(
                names@,
            ),
            ConfigError::MissingProfileName => ConfigIssue::MissingProfileName,
            ConfigError::MissingProfileRuntime => ConfigIssue::MissingProfileRuntime,
            ConfigError::ReservedProfileRuntime => ConfigIssue::ReservedProfileRuntime,
            ConfigError::InvalidStyle { description, message } => ConfigIssue::InvalidStyle {
                description: description@,
                message: message@,
            },
            ConfigError::InvalidPalette(message) => ConfigIssue::InvalidPalette(message@),
            ConfigError::InvalidCaptureKey { description, key } => ConfigIssue::InvalidCaptureKey {
                description: description@,
                key: key@,
            },
            ConfigError::Yaml(issue) => ConfigIssue::Yaml(issue@),
        }
    }
}

/// What a user profile with reserved runtime metadata is answered.
pub const RESERVED_PROFILE_RUNTIME_MESSAGE: &'static str =
    "the profile.runtime field is reserved for built-in profiles in this PrismTTY version";

impl ConfigIssue {
    pub open spec fn message(self) -> Seq<char> {
        match self {
            ConfigIssue::UnknownProfile(name) => "unknown profile '"@ + name + "'"@,
            ConfigIssue::CyclicProfileInheritance(names) => "cyclic profile inheritance: "@ + names,
            ConfigIssue::MissingProfileName => "profile files must include profile.name"@,
            ConfigIssue::MissingProfileRuntime => "bundled profile files must include profile.runtime"@,
            ConfigIssue::ReservedProfileRuntime => RESERVED_PROFILE_RUNTIME_MESSAGE@,
            ConfigIssue::InvalidStyle { description, message } => "rule '"@ + description
                + "' has invalid style: "@ + message,
            ConfigIssue::InvalidPalette(message) => "palette has invalid color: "@ + message,
            ConfigIssue::InvalidCaptureKey { description, key } => "rule '"@ + description
                + "' has invalid capture key: "@ + key,
            ConfigIssue::Yaml(issue) => "failed to parse YAML: "@ + issue.message(),
        }
    }
}

impl ConfigError {
    /// The error in words.
    pub fn message(&self) -> (r: String)
        ensures
            r@ == self@.message(),
    {
        match self {
            ConfigError::UnknownProfile(name) => concat3("unknown profile '", name.as_str(), "'"),
            ConfigError::CyclicProfileInheritance(names) => concat(
                "cyclic profile inheritance: ",
                names.as_str(),
            ),
            ConfigError::MissingProfileName => copy_text("profile files must include profile.name"),
            ConfigError::MissingProfileRuntime => copy_text(
                "bundled profile files must include profile.runtime",
            ),
            ConfigError::ReservedProfileRuntime => copy_text(RESERVED_PROFILE_RUNTIME_MESSAGE),
            ConfigError::InvalidStyle { description, message } => {
                let head = concat3("rule '", description.as_str(), "' has invalid style: ");
                concat(head.as_str(), message.as_str())
            },
            ConfigError::InvalidPalette(message) => concat(
                "palette has invalid color: ",
                message.as_str(),
            ),
            ConfigError::InvalidCaptureKey { description, key } => {
                let head = concat3("rule '", description.as_str(), "' has invalid capture key: ");
                concat(head.as_str(), key.as_str())
            },
            ConfigError::Yaml(issue) => concat(
                "failed to parse YAML: ",
                issue.message().as_str(),
            ),
        }
    }
}

} // verus!
