//! One highlighting session: which profiles are in use, the rules made from
//! them, and the stream they are applied to.

use vstd::prelude::*;

use crate::benchmark::{failing_from, slowest_of, BenchmarkReport};
use crate::cache::{
    entry_of, lemma_entry_from, names_differ, supplied, supplying_keeps_bound,
    HIGHLIGHTER_CACHE_LIMIT, CachedView, HighlighterCache,
};
use crate::compiled::{compiled_rules, HighlightError, HighlightIssue};
use crate::config::{ConfigError, ConfigIssue, PrismConfig, RuleView};
use crate::highlight::{Highlighter, HighlighterView};
use crate::inheritance::{selected, str_views};
use crate::options::{auto_detect_enabled, Options};
use crate::profile_runtime::{same_names, set_views};
use crate::profiles::{ProfileStore, ProfileView};
use crate::prompt_echo::prompt_echo;
use crate::reporter::{option_text, ProfileReporter, ReporterView};
use crate::stream_model::{
    echo_keeps_settings, finishes, finishing_keeps_settings, kept_echo, pushes,
    pushing_keeps_settings, shows_echo, Stream,
};
use crate::streaming::{fresh, AnsiChunk, StreamingHighlighter};
use crate::style::ColorMode;
use crate::terminal_text::{escape_untrusted, escaped};
use crate::text::{concat3, text_views};

verus! {

/// Nanoseconds of matching after which a rule counts as slow: five seconds.
pub const SLOW_RULE_WARN_THRESHOLD: u128 = 5_000_000_000;

/// Why rules could not be made.
pub enum SessionError {
    Config(ConfigError),
    Highlight(HighlightError),
}

/// The content of a [`SessionError`].
pub enum SessionIssue {
    Config(ConfigIssue),
    /// A rule does not compile.
    Highlight(HighlightIssue),
}

impl SessionIssue {
    /// The issue in words.
    pub open spec fn message(self) -> Seq<char> {
        match self {
            SessionIssue::Config(issue) => issue.message(),
            SessionIssue::Highlight(issue) => issue.message(),
        }
    }
}

impl View for SessionError {
    type V = SessionIssue;

    open spec fn view(&self) -> SessionIssue {
        match self {
            SessionError::Config(e) => SessionIssue::Config(e@),
            SessionError::Highlight(e) => SessionIssue::Highlight(e@),
        }
    }
}

impl SessionError {
    /// The error in words.
    pub fn message(&self) -> (r: String)
        ensures
            r@ == self@.message(),
    {
        match self {
            SessionError::Config(e) => e.message(),
            SessionError::Highlight(e) => e.message(),
        }
    }
}

/// The highlighter for the profiles `names`: their rules with those they
/// inherit, and behind them the user's own.
pub open spec fn built(
    profiles: Seq<ProfileView>,
    overlay: Seq<RuleView>,
    names: Seq<Seq<char>>,
    color: ColorMode,
) -> Result<HighlighterView, SessionIssue> {
    match selected(profiles, names) {
        Err(issue) => Err(SessionIssue::Config(issue)),
        Ok(loaded) => match compiled_rules(loaded.rules + overlay) {
            Err(issue) => Err(SessionIssue::Highlight(issue)),
            Ok(rules) => Ok(HighlighterView { rules, color }),
        },
    }
}

/// Whether `made` is the highlighter, or the error, that `wanted` tells.
pub open spec fn is_made(
    wanted: Result<HighlighterView, SessionIssue>,
    made: Result<Highlighter, SessionError>,
) -> bool {
    match wanted {
        Ok(view) => made matches Ok(h) && h@ == view,
        Err(issue) => made matches Err(e) && e@ == issue,
    }
}

fn name_refs(names: &Vec<String>) -> (r: Vec<&str>)
    ensures
        str_views(r@) == text_views(names@),
{
    let ghost all = text_views(names@);
    let mut refs: Vec<&str> = Vec::new();
    let mut i: usize = 0;
    while i < names.len()
        invariant
            i <= names@.len(),
            all == text_views(names@),
            str_views(refs@) == all.take(i as int),
        decreases names@.len() - i,
    {
        let ghost before = str_views(refs@);
        refs.push(names[i].as_str());
        assert(str_views(refs@) =~= before.push(all[i as int]));
        assert(all.take(i + 1) =~= all.take(i as int).push(all[i as int]));
        i = i + 1;
    }
    assert(all.take(i as int) =~= all);
    refs
}

/// The rules of the profiles, with those of the user behind them.
pub fn build_config_for_profiles_with_store(
    store: &ProfileStore,
    profile_names: &Vec<String>,
    overlay_config: &PrismConfig,
) -> (r: Result<PrismConfig, ConfigError>)
    ensures
        match selected(store@, text_views(profile_names@)) {
            Ok(loaded) => r matches Ok(config) && config@.rules == loaded.rules
                + overlay_config@.rules,
            Err(issue) => r matches Err(e) && e@ == issue,
        },
{
    let refs = name_refs(profile_names);
    match PrismConfig::from_profiles(store, refs.as_slice()) {
        Ok(config) => Ok(config.merge(overlay_config.duplicate())),
        Err(e) => Err(e),
    }
}

/// The highlighter for the profiles, the user's own rules behind theirs.
pub fn build_highlighter_for_profiles_with_store(
    store: &ProfileStore,
    profile_names: &Vec<String>,
    color: ColorMode,
    overlay_config: &PrismConfig,
) -> (r: Result<Highlighter, SessionError>)
    ensures
        is_made(built(store@, overlay_config@.rules, text_views(profile_names@), color), r),
{
    match build_config_for_profiles_with_store(store, profile_names, overlay_config) {
        Ok(config) => match Highlighter::from_config_with_color_mode(config, color) {
            Ok(highlighter) => Ok(highlighter),
            Err(e) => Err(SessionError::Highlight(e)),
        },
        Err(e) => Err(SessionError::Config(e)),
    }
}

/// A stream as the switches ask for.
pub fn new_streaming_highlighter(
    highlighter: Highlighter,
    interactive: bool,
    benchmark: bool,
    no_minimal_reset: bool,
) -> (r: StreamingHighlighter)
    ensures
        r.wf(),
        r@ == (Stream { full_resets: no_minimal_reset, ..fresh(highlighter@, interactive) }),
        r.reports() == benchmark,
{
    let mut streaming = if interactive && benchmark {
        StreamingHighlighter::new_interactive_with_benchmark(highlighter)
    } else if interactive {
        StreamingHighlighter::new_interactive(highlighter)
    } else if benchmark {
        StreamingHighlighter::new_with_benchmark(highlighter)
    } else {
        StreamingHighlighter::new(highlighter)
    };
    if no_minimal_reset {
        streaming.set_no_minimal_resets(true);
    }
    streaming
}

/// What came of a change of profiles.
#[derive(Clone, Copy, Debug, PartialEq, Eq, Structural)]
pub enum ProfileSwitchOutcome {
    /// These profiles were in use already.
    Unchanged,
    Switched,
    /// Their rules are known not to compile.
    Rejected,
}

/// The content of a [`HighlightSession`].
pub struct SessionView {
    pub profiles: Seq<ProfileView>,
    pub overlay: Seq<RuleView>,
    pub color: ColorMode,
    pub names: Seq<Seq<char>>,
    pub stream: Stream,
    pub reporter: ReporterView,
    pub cache: Seq<CachedView>,
    pub rejected: Seq<Seq<Seq<char>>>,
    pub warned: bool,
}

/// The sets known not to compile, with one more; the oldest makes room.
pub open spec fn with_rejected(sets: Seq<Seq<Seq<char>>>, names: Seq<Seq<char>>) -> Seq<
    Seq<Seq<char>>,
> {
    if sets.len() >= HIGHLIGHTER_CACHE_LIMIT {
        sets.skip(1).push(names)
    } else {
        sets.push(names)
    }
}

/// The highlighters for the sets that are kept over a reload: each set once,
/// without the one in use.
pub open spec fn kept_over(
    profiles: Seq<ProfileView>,
    overlay: Seq<RuleView>,
    color: ColorMode,
    current: Seq<Seq<char>>,
    sets: Seq<Seq<Seq<char>>>,
) -> Result<Seq<CachedView>, SessionIssue>
    decreases sets.len(),
{
    if sets.len() == 0 {
        Ok(Seq::empty())
    } else {
        match kept_over(profiles, overlay, color, current, sets.drop_last()) {
            Err(issue) => Err(issue),
            Ok(done) => if sets.last() == current || entry_of(done, sets.last()) is Some {
                Ok(done)
            } else {
                match built(profiles, overlay, sets.last(), color) {
                    Err(issue) => Err(issue),
                    Ok(highlighter) => Ok(done.push(CachedView { names: sets.last(), highlighter })),
                }
            },
        }
    }
}

/// The cache once `entries` have been added.
pub open spec fn stocked(cache: Seq<CachedView>, entries: Seq<CachedView>) -> Seq<CachedView>
    decreases entries.len(),
{
    if entries.len() == 0 {
        cache
    } else {
        supplied(stocked(cache, entries.drop_last()), entries.last())
    }
}

impl SessionView {
    pub open spec fn makes(self, names: Seq<Seq<char>>) -> Result<HighlighterView, SessionIssue> {
        built(self.profiles, self.overlay, names, self.color)
    }

    /// The rules in use are those of the profiles in use, every highlighter
    /// that is kept is the one its profiles give, and every set that is kept
    /// as rejected gives none.
    pub open spec fn wf(self) -> bool {
        &&& self.makes(self.names) == Ok::<HighlighterView, SessionIssue>(self.stream.highlighter)
        &&& self.cached()
        &&& self.rejected.len() <= HIGHLIGHTER_CACHE_LIMIT
        &&& forall|i: int|
            0 <= i < self.rejected.len() ==> self.makes(#[trigger] self.rejected[i]) is Err
    }

    pub open spec fn cached(self) -> bool {
        &&& names_differ(self.cache)
        &&& self.cache.len() <= HIGHLIGHTER_CACHE_LIMIT
        &&& forall|i: int|
            #![trigger self.cache[i]]
            0 <= i < self.cache.len() ==> self.makes(self.cache[i].names) == Ok::<
                HighlighterView,
                SessionIssue,
            >(self.cache[i].highlighter)
    }

    /// The session that uses the profiles `names`, whose rules are
    /// `highlighter`.
    pub open spec fn using(
        self,
        names: Seq<Seq<char>>,
        highlighter: HighlighterView,
    ) -> SessionView {
        SessionView {
            names,
            stream: Stream { highlighter, ..self.stream },
            reporter: self.reporter.told(names),
            cache: supplied(self.cache, CachedView { names, highlighter }),
            ..self
        }
    }

    /// The session that has been asked for other profiles, and its answer.
    pub open spec fn switched(self, names: Seq<Seq<char>>) -> (
        SessionView,
        Result<ProfileSwitchOutcome, SessionIssue>,
    ) {
        if names == self.names {
            (self, Ok(ProfileSwitchOutcome::Unchanged))
        } else if self.rejected.contains(names) {
            (self, Ok(ProfileSwitchOutcome::Rejected))
        } else {
            match self.makes(names) {
                Ok(highlighter) => (
                    self.using(names, highlighter),
                    Ok(ProfileSwitchOutcome::Switched),
                ),
                Err(issue) => (
                    SessionView { rejected: with_rejected(self.rejected, names), ..self },
                    Err(issue),
                ),
            }
        }
    }

    /// The session with a configuration that was loaded anew, or why that
    /// cannot be used. The sets in `retained` can be used from then on.
    pub open spec fn reloaded(
        self,
        profiles: Seq<ProfileView>,
        overlay: Seq<RuleView>,
        retained: Seq<Seq<Seq<char>>>,
    ) -> Result<SessionView, SessionIssue> {
        match built(profiles, overlay, self.names, self.color) {
            Err(issue) => Err(issue),
            Ok(highlighter) => match kept_over(
                profiles,
                overlay,
                self.color,
                self.names,
                retained,
            ) {
                Err(issue) => Err(issue),
                Ok(entries) => Ok(
                    SessionView {
                        profiles,
                        overlay,
                        stream: Stream {
                            highlighter,
                            timing: Seq::empty(),
                            disabled: Seq::empty(),
                            ..self.stream
                        },
                        cache: stocked(
                            seq![CachedView { names: self.names, highlighter }],
                            entries,
                        ),
                        rejected: Seq::empty(),
                        warned: false,
                        ..self
                    },
                ),
            },
        }
    }
}

proof fn lemma_supplied_cached(s: SessionView, entry: CachedView)
    requires
        s.cached(),
        s.makes(entry.names) == Ok::<HighlighterView, SessionIssue>(entry.highlighter),
    ensures
        (SessionView { cache: supplied(s.cache, entry), ..s }).cached(),
{
    supplying_keeps_bound(s.cache, entry);
    lemma_entry_from(s.cache, entry.names, 0);
    let t = SessionView { cache: supplied(s.cache, entry), ..s };
    assert forall|i: int|
        #![trigger t.cache[i]]
        0 <= i < t.cache.len() implies t.makes(t.cache[i].names) == Ok::<
        HighlighterView,
        SessionIssue,
    >(t.cache[i].highlighter) by {
        match entry_of(s.cache, entry.names) {
            Some(at) => {
                let from = if i + 1 == t.cache.len() {
                    at
                } else if i < at {
                    i
                } else {
                    i + 1
                };
                assert(t.cache[i] == s.cache[from]);
            },
            None => {
                let gone: int = if s.cache.len() >= HIGHLIGHTER_CACHE_LIMIT { 1 } else { 0 };
                if i + 1 < t.cache.len() {
                    assert(t.cache[i] == s.cache[i + gone]);
                }
            },
        }
    }
}

/// Whatever profiles a session is asked for, the rules that it applies stay
/// those of the profiles that it says are in use: a set whose rules do not
/// compile changes neither.
pub proof fn switching_keeps_rules_in_step(s: SessionView, names: Seq<Seq<char>>)
    requires
        s.wf(),
    ensures
        s.switched(names).0.wf(),
        s.switched(names).1 is Err ==> s.switched(names).0.names == s.names
            && s.switched(names).0.stream == s.stream,
        s.switched(names).1 is Ok ==> s.switched(names).1->Ok_0
            != ProfileSwitchOutcome::Rejected ==> s.switched(names).0.names == names,
{
    if names != s.names && !s.rejected.contains(names) {
        match s.makes(names) {
            Ok(highlighter) => {
                lemma_supplied_cached(s, CachedView { names, highlighter });
                let t = s.switched(names).0;
                assert(t.cached()) by {
                    let u = SessionView {
                        cache: supplied(s.cache, CachedView { names, highlighter }),
                        ..s
                    };
                    assert(u.cached());
                    assert forall|i: int|
                        #![trigger t.cache[i]]
                        0 <= i < t.cache.len() implies t.makes(t.cache[i].names) == Ok::<
                        HighlighterView,
                        SessionIssue,
                    >(t.cache[i].highlighter) by {
                        assert(u.cache[i] == t.cache[i]);
                    }
                }
                assert forall|i: int| 0 <= i < t.rejected.len() implies t.makes(
                    #[trigger] t.rejected[i],
                ) is Err by {
                    assert(t.rejected[i] == s.rejected[i]);
                }
            },
            Err(_) => {
                let t = s.switched(names).0;
                let gone: int = if s.rejected.len() >= HIGHLIGHTER_CACHE_LIMIT { 1 } else { 0 };
                assert forall|i: int| 0 <= i < t.rejected.len() implies t.makes(
                    #[trigger] t.rejected[i],
                ) is Err by {
                    if i + 1 < t.rejected.len() {
                        assert(t.rejected[i] == s.rejected[i + gone]);
                    }
                }
                assert(t.cached()) by {
                    assert forall|i: int|
                        #![trigger t.cache[i]]
                        0 <= i < t.cache.len() implies t.makes(t.cache[i].names) == Ok::<
                        HighlighterView,
                        SessionIssue,
                    >(t.cache[i].highlighter) by {
                        assert(s.cache[i] == t.cache[i]);
                    }
                }
            },
        }
    }
}

proof fn lemma_kept_over(
    profiles: Seq<ProfileView>,
    overlay: Seq<RuleView>,
    color: ColorMode,
    current: Seq<Seq<char>>,
    sets: Seq<Seq<Seq<char>>>,
)
    ensures
        kept_over(profiles, overlay, color, current, sets) matches Ok(entries) ==> forall|i: int|
            #![trigger entries[i]]
            0 <= i < entries.len() ==> built(profiles, overlay, entries[i].names, color) == Ok::<
                HighlighterView,
                SessionIssue,
            >(entries[i].highlighter),
    decreases sets.len(),
{
    if sets.len() > 0 {
        lemma_kept_over(profiles, overlay, color, current, sets.drop_last());
    }
}

proof fn lemma_stocked(s: SessionView, entries: Seq<CachedView>)
    requires
        s.cached(),
        forall|i: int|
            #![trigger entries[i]]
            0 <= i < entries.len() ==> s.makes(entries[i].names) == Ok::<
                HighlighterView,
                SessionIssue,
            >(entries[i].highlighter),
    ensures
        (SessionView { cache: stocked(s.cache, entries), ..s }).cached(),
    decreases entries.len(),
{
    if entries.len() > 0 {
        let rest = entries.drop_last();
        assert forall|i: int|
            #![trigger rest[i]]
            0 <= i < rest.len() implies s.makes(rest[i].names) == Ok::<
            HighlighterView,
            SessionIssue,
        >(rest[i].highlighter) by {
            assert(rest[i] == entries[i]);
        }
        lemma_stocked(s, rest);
        assert(entries.last() == entries[entries.len() - 1]);
        lemma_supplied_cached(SessionView { cache: stocked(s.cache, rest), ..s }, entries.last());
    }
}

/// A configuration that was loaded anew is used as a whole: the rules in use
/// are those that it gives the profiles in use, and what was known of the one
/// before is forgotten.
pub proof fn reloading_keeps_rules_in_step(
    s: SessionView,
    profiles: Seq<ProfileView>,
    overlay: Seq<RuleView>,
    retained: Seq<Seq<Seq<char>>>,
)
    requires
        s.wf(),
    ensures
        s.reloaded(profiles, overlay, retained) matches Ok(t) ==> t.wf() && t.names == s.names
            && t.profiles == profiles && t.overlay == overlay && t.rejected.len() == 0,
{
    if let Ok(t) = s.reloaded(profiles, overlay, retained) {
        let highlighter = t.stream.highlighter;
        let entries = kept_over(profiles, overlay, s.color, s.names, retained)->Ok_0;
        lemma_kept_over(profiles, overlay, s.color, s.names, retained);
        let first = SessionView { cache: seq![CachedView { names: s.names, highlighter }], ..t };
        assert(first.cached());
        assert forall|i: int|
            #![trigger entries[i]]
            0 <= i < entries.len() implies first.makes(entries[i].names) == Ok::<
            HighlighterView,
            SessionIssue,
        >(entries[i].highlighter) by {}
        lemma_stocked(first, entries);
        assert((SessionView { cache: stocked(first.cache, entries), ..first }) == t);
    }
}

/// A rule that the user should know about.
#[derive(Clone, Debug)]
pub enum RuleWarning {
    /// Matching the rule failed.
    Failed { description: String, error: String },
    /// Matching the rule has taken this many nanoseconds.
    Slow { description: String, duration: u128 },
}

/// The content of a [`RuleWarning`].
pub enum WarningView {
    Failed { description: Seq<char>, error: Seq<char> },
    Slow { description: Seq<char>, duration: u128 },
}

impl View for RuleWarning {
    type V = WarningView;

    open spec fn view(&self) -> WarningView {
        match self {
            RuleWarning::Failed { description, error } => WarningView::Failed {
                description: description@,
                error: error@,
            },
            RuleWarning::Slow { description, duration } => WarningView::Slow {
                description: description@,
                duration: *duration,
            },
        }
    }
}

impl WarningView {
    pub open spec fn text(self, seconds: Seq<char>) -> Seq<char> {
        match self {
            WarningView::Failed { description, error } => "prismtty: rule '"@ + description
                + "' stopped after a bounded regex match error: "@ + error
                + " (inspect with --benchmark)"@,
            WarningView::Slow { description, duration } => "prismtty: rule '"@ + description
                + "' has spent "@ + seconds
                + "s matching; a slow regex is degrading throughput (profile with --benchmark)"@,
        }
    }
}

impl RuleWarning {
    /// The warning in words; `seconds` is the time of a slow rule, in seconds.
    pub fn message(&self, seconds: &str) -> (r: String)
        ensures
            r@ == self@.text(seconds@),
    {
        match self {
            RuleWarning::Failed { description, error } => {
                let mut text = concat3(
                    "prismtty: rule '",
                    description.as_str(),
                    "' stopped after a bounded regex match error: ",
                );
                text.append(error.as_str());
                text.append(" (inspect with --benchmark)");
                text
            },
            RuleWarning::Slow { description, duration: _ } => {
                let mut text = concat3("prismtty: rule '", description.as_str(), "' has spent ");
                text.append(seconds);
                text.append(
                    "s matching; a slow regex is degrading throughput (profile with --benchmark)",
                );
                text
            },
        }
    }
}

/// The rule to warn of: the first that failed, or else the slowest where it
/// has taken as long as `threshold`.
pub open spec fn warning_at(stream: Stream, threshold: u128) -> Option<WarningView> {
    match failing_from(stream.timing, 0) {
        Some(i) => Some(
            WarningView::Failed {
                description: escaped(stream.timing[i].line.description),
                error: escaped(
                    match stream.timing[i].line.last {
                        Some(text) => text,
                        None => "PCRE2 match error"@,
                    },
                ),
            },
        ),
        None => if stream.timing.len() == 0 {
            None
        } else {
            let line = stream.timing[slowest_of(stream.timing, stream.timing.len() as int)].line;
            if line.duration < threshold {
                None
            } else {
                Some(
                    WarningView::Slow {
                        description: escaped(line.description),
                        duration: line.duration,
                    },
                )
            }
        },
    }
}

pub open spec fn option_warning(warning: Option<RuleWarning>) -> Option<WarningView> {
    match warning {
        Some(w) => Some(w@),
        None => None,
    }
}

/// A highlighting session.
pub struct HighlightSession {
    store: ProfileStore,
    overlay_config: PrismConfig,
    color: ColorMode,
    profile_names: Vec<String>,
    streaming: StreamingHighlighter,
    reporter: ProfileReporter,
    highlighter_cache: HighlighterCache,
    rejected_profile_sets: Vec<Vec<String>>,
    slow_rule_warned: bool,
}

impl View for HighlightSession {
    type V = SessionView;

    closed spec fn view(&self) -> SessionView {
        SessionView {
            profiles: self.store@,
            overlay: self.overlay_config@.rules,
            color: self.color,
            names: text_views(self.profile_names@),
            stream: self.streaming@,
            reporter: self.reporter@,
            cache: self.highlighter_cache@,
            rejected: set_views(self.rejected_profile_sets@),
            warned: self.slow_rule_warned,
        }
    }
}

fn contains_set(sets: &Vec<Vec<String>>, names: &Vec<String>) -> (r: bool)
    ensures
        r == set_views(sets@).contains(text_views(names@)),
{
    let ghost all = set_views(sets@);
    let mut i: usize = 0;
    while i < sets.len()
        invariant
            i <= sets@.len(),
            all == set_views(sets@),
            forall|k: int| 0 <= k < i ==> #[trigger] all[k] != text_views(names@),
        decreases sets@.len() - i,
    {
        assert(all[i as int] == text_views(sets@[i as int]@));
        if same_names(&sets[i], names) {
            return true;
        }
        i = i + 1;
    }
    false
}

impl HighlightSession {
    pub closed spec fn wf(&self) -> bool {
        self.store.wf() && self.streaming.wf() && self@.wf()
    }

    /// Whether the session hands out its timing.
    pub closed spec fn reports(&self) -> bool {
        self.streaming.reports()
    }

    /// A session that starts with these profiles.
    pub fn new(
        options: &Options,
        store: ProfileStore,
        overlay_config: PrismConfig,
        interactive: bool,
        color: ColorMode,
        profile_names: Vec<String>,
    ) -> (r: Result<HighlightSession, SessionError>)
        requires
            store.wf(),
        ensures
            match built(store@, overlay_config@.rules, text_views(profile_names@), color) {
                Err(issue) => r matches Err(e) && e@ == issue,
                Ok(highlighter) => match r {
                    Err(_) => false,
                    Ok(session) => session.wf() && session.reports() == options.benchmark
                        && session@ == (SessionView {
                        profiles: store@,
                        overlay: overlay_config@.rules,
                        color,
                        names: text_views(profile_names@),
                        stream: Stream {
                            full_resets: options.no_minimal_reset,
                            ..fresh(highlighter, interactive)
                        },
                        reporter: ReporterView {
                            show: options.show_profile,
                            detects: options.detects(),
                            last: None,
                        },
                        cache: seq![
                            CachedView { names: text_views(profile_names@), highlighter },
                        ],
                        rejected: Seq::empty(),
                        warned: false,
                    }),
                },
            },
    {
        let highlighter = match build_highlighter_for_profiles_with_store(
            &store,
            &profile_names,
            color,
            &overlay_config,
        ) {
            Ok(highlighter) => highlighter,
            Err(e) => return Err(e),
        };
        let mut highlighter_cache = HighlighterCache::default();
        highlighter_cache.replace_generation(&profile_names, &highlighter);
        let streaming = new_streaming_highlighter(
            highlighter,
            interactive,
            options.benchmark,
            options.no_minimal_reset,
        );
        let reporter = ProfileReporter::new(options.show_profile, auto_detect_enabled(options));
        let session = HighlightSession {
            store,
            overlay_config,
            color,
            profile_names,
            streaming,
            reporter,
            highlighter_cache,
            rejected_profile_sets: Vec::new(),
            slow_rule_warned: false,
        };
        assert(session@.rejected =~= Seq::empty());
        Ok(session)
    }

    /// The profiles in use.
    pub fn profile_names(&self) -> (r: &Vec<String>)
        ensures
            text_views(r@) == self@.names,
    {
        &self.profile_names
    }

    /// All profiles.
    pub fn profile_store(&self) -> (r: &ProfileStore)
        requires
            self.wf(),
        ensures
            r.wf(),
            r@ == self@.profiles,
    {
        &self.store
    }

    /// How many sets of profiles are known not to compile.
    pub fn rejected_count(&self) -> (r: usize)
        ensures
            r == self@.rejected.len(),
    {
        assert(self@.rejected.len() == self.rejected_profile_sets@.len());
        self.rejected_profile_sets.len()
    }

    /// What to tell the user of the profiles in use.
    pub fn report_current(&mut self) -> (r: Option<String>)
        requires
            old(self).wf(),
        ensures
            final(self).wf(),
            final(self).reports() == old(self).reports(),
            option_text(r) == old(self)@.reporter.message(old(self)@.names),
            final(self)@ == (SessionView {
                reporter: old(self)@.reporter.told(old(self)@.names),
                ..old(self)@
            }),
    {
        let message = self.reporter.message_for(&self.profile_names);
        proof {
            lemma_same_wf(old(self)@, self@);
        }
        message
    }

    fn remember_rejected_profile_set(&mut self, profile_names: Vec<String>)
        requires
            !old(self)@.rejected.contains(text_views(profile_names@)),
        ensures
            final(self)@ == (SessionView {
                rejected: with_rejected(old(self)@.rejected, text_views(profile_names@)),
                ..old(self)@
            }),
            final(self).store == old(self).store,
            final(self).streaming == old(self).streaming,
    {
        let ghost first = self.rejected_profile_sets@;
        assert(set_views(first).len() == first.len());
        if self.rejected_profile_sets.len() >= HIGHLIGHTER_CACHE_LIMIT {
            let _ = self.rejected_profile_sets.remove(0);
            assert(self.rejected_profile_sets@ =~= first.skip(1));
        }
        let ghost before = self.rejected_profile_sets@;
        self.rejected_profile_sets.push(profile_names);
        assert(self.rejected_profile_sets@ =~= before.push(profile_names));
        assert(self@.rejected =~= with_rejected(
            old(self)@.rejected,
            text_views(profile_names@),
        ));
    }

    /// Goes over to these profiles, if their rules compile. Where it does, the
    /// message for the user comes with the answer.
    pub fn switch_profiles(&mut self, profile_names: Vec<String>) -> (r: Result<
        (ProfileSwitchOutcome, Option<String>),
        SessionError,
    >)
        requires
            old(self).wf(),
        ensures
            final(self).wf(),
            final(self).reports() == old(self).reports(),
            final(self)@ == old(self)@.switched(text_views(profile_names@)).0,
            match old(self)@.switched(text_views(profile_names@)).1 {
                Ok(outcome) => r matches Ok((answer, message)) && answer == outcome && option_text(
                    message,
                ) == (if outcome == ProfileSwitchOutcome::Switched {
                    old(self)@.reporter.message(text_views(profile_names@))
                } else {
                    None
                }),
                Err(issue) => r matches Err(e) && e@ == issue,
            },
    {
        let ghost names = text_views(profile_names@);
        let ghost before = self@;
        proof {
            switching_keeps_rules_in_step(before, names);
            lemma_entry_from(before.cache, names, 0);
        }
        if same_names(&profile_names, &self.profile_names) {
            return Ok((ProfileSwitchOutcome::Unchanged, None));
        }
        if contains_set(&self.rejected_profile_sets, &profile_names) {
            return Ok((ProfileSwitchOutcome::Rejected, None));
        }
        let made = match self.highlighter_cache.get(&profile_names) {
            Some(highlighter) => Ok(highlighter),
            None => {
                let made = build_highlighter_for_profiles_with_store(
                    &self.store,
                    &profile_names,
                    self.color,
                    &self.overlay_config,
                );
                if let Ok(highlighter) = &made {
                    self.highlighter_cache.insert_prebuilt(&profile_names, highlighter);
                }
                made
            },
        };
        match made {
            Ok(highlighter) => {
                self.profile_names = profile_names;
                self.streaming.replace_highlighter(highlighter);
                let message = self.reporter.message_for(&self.profile_names);
                assert(self@ == before.switched(names).0);
                Ok((ProfileSwitchOutcome::Switched, message))
            },
            Err(error) => {
                self.remember_rejected_profile_set(profile_names);
                Err(error)
            },
        }
    }

    /// Goes on with a configuration that was loaded anew, unless the rules of
    /// the profiles in use or of one of the `retained` sets do not compile
    /// then.
    pub fn reload_with_store(
        &mut self,
        next_store: ProfileStore,
        next_overlay_config: PrismConfig,
        retained_profile_sets: &Vec<Vec<String>>,
    ) -> (r: Result<(), SessionError>)
        requires
            old(self).wf(),
            next_store.wf(),
        ensures
            final(self).wf(),
            final(self).reports() == old(self).reports(),
            match old(self)@.reloaded(
                next_store@,
                next_overlay_config@.rules,
                set_views(retained_profile_sets@),
            ) {
                Ok(next) => r is Ok && final(self)@ == next,
                Err(issue) => r matches Err(e) && e@ == issue && final(self)@ == old(self)@,
            },
    {
        let ghost before = self@;
        let ghost sets = set_views(retained_profile_sets@);
        let ghost profiles = next_store@;
        let ghost overlay = next_overlay_config@.rules;
        proof {
            reloading_keeps_rules_in_step(before, profiles, overlay, sets);
        }
        let highlighter = match build_highlighter_for_profiles_with_store(
            &next_store,
            &self.profile_names,
            self.color,
            &next_overlay_config,
        ) {
            Ok(highlighter) => highlighter,
            Err(e) => return Err(e),
        };
        let mut kept = HighlighterCache::default();
        kept.replace_generation(&self.profile_names, &highlighter);
        let mut names: Vec<&Vec<String>> = Vec::new();
        let mut built_for: Vec<Highlighter> = Vec::new();
        let mut i: usize = 0;
        let ghost mut done = Seq::<CachedView>::empty();
        assert(sets.take(0) =~= Seq::<Seq<Seq<char>>>::empty());
        while i < retained_profile_sets.len()
            invariant
                i <= retained_profile_sets@.len(),
                old(self).wf(),
                *self == *old(self),
                before == self@,
                sets == set_views(retained_profile_sets@),
                profiles == next_store@,
                overlay == next_overlay_config@.rules,
                names@.len() == built_for@.len(),
                done.len() == names@.len(),
                forall|k: int|
                    #![trigger done[k]]
                    0 <= k < done.len() ==> done[k].names == text_views(names@[k]@)
                        && done[k].highlighter == built_for@[k]@,
                kept_over(profiles, overlay, before.color, before.names, sets.take(i as int)) == Ok::<
                    Seq<CachedView>,
                    SessionIssue,
                >(done),
                built(profiles, overlay, before.names, before.color) == Ok::<
                    HighlighterView,
                    SessionIssue,
                >(highlighter@),
            decreases retained_profile_sets@.len() - i,
        {
            let wanted = &retained_profile_sets[i];
            let ghost set = text_views(wanted@);
            assert(sets[i as int] == set);
            assert(sets.take(i + 1).drop_last() =~= sets.take(i as int));
            assert(sets.take(i + 1).last() == set);
            let mut known: bool = same_names(wanted, &self.profile_names);
            let mut k: usize = 0;
            proof {
                lemma_entry_from(done, set, 0);
            }
            while k < names.len()
                invariant
                    k <= names@.len(),
                    set == text_views(wanted@),
                    done.len() == names@.len(),
                    forall|k: int|
                        #![trigger done[k]]
                        0 <= k < done.len() ==> done[k].names == text_views(names@[k]@),
                    known == (set == before.names || exists|j: int|
                        0 <= j < k && #[trigger] done[j].names == set),
                decreases names@.len() - k,
            {
                assert(done[k as int].names == text_views(names@[k as int]@));
                if same_names(names[k], wanted) {
                    known = true;
                }
                k = k + 1;
            }
            if !known {
                let retained = match build_highlighter_for_profiles_with_store(
                    &next_store,
                    wanted,
                    self.color,
                    &next_overlay_config,
                ) {
                    Ok(retained) => retained,
                    Err(e) => {
                        proof {
                            lemma_kept_over_fails(
                                profiles,
                                overlay,
                                before.color,
                                before.names,
                                sets,
                                i + 1,
                            );
                        }
                        return Err(e);
                    },
                };
                proof {
                    done = done.push(CachedView { names: set, highlighter: retained@ });
                }
                names.push(wanted);
                built_for.push(retained);
            }
            i = i + 1;
        }
        assert(sets.take(i as int) =~= sets);
        let ghost first = kept@;
        let mut k: usize = 0;
        assert(done.take(0) =~= Seq::<CachedView>::empty());
        while k < names.len()
            invariant
                k <= names@.len(),
                names@.len() == built_for@.len(),
                done.len() == names@.len(),
                forall|k: int|
                    #![trigger done[k]]
                    0 <= k < done.len() ==> done[k].names == text_views(names@[k]@)
                        && done[k].highlighter == built_for@[k]@,
                kept@ == stocked(first, done.take(k as int)),
            decreases names@.len() - k,
        {
            assert(done.take(k + 1).drop_last() =~= done.take(k as int));
            assert(done.take(k + 1).last() == done[k as int]);
            kept.insert_prebuilt(names[k], &built_for[k]);
            k = k + 1;
        }
        assert(done.take(k as int) =~= done);
        self.store = next_store;
        self.overlay_config = next_overlay_config;
        self.highlighter_cache = kept;
        self.rejected_profile_sets = Vec::new();
        assert(self@.rejected =~= Seq::empty());
        self.streaming.replace_highlighter_generation(highlighter);
        self.slow_rule_warned = false;
        assert(self@.cache =~= before.reloaded(profiles, overlay, sets)->Ok_0.cache);
        assert(self@ == before.reloaded(profiles, overlay, sets)->Ok_0);
        Ok(())
    }

    /// What to show for a chunk of output.
    pub fn push(&mut self, chunk: &AnsiChunk) -> (r: Vec<u8>)
        requires
            old(self).wf(),
            chunk.wf(),
        ensures
            final(self).wf(),
            final(self).reports() == old(self).reports(),
            pushes(old(self)@.stream, chunk@, r@, final(self)@.stream),
            final(self)@ == (SessionView { stream: final(self)@.stream, ..old(self)@ }),
    {
        let rendered = self.streaming.push_chunk(chunk);
        proof {
            pushing_keeps_settings(old(self)@.stream, chunk@, rendered@, self@.stream);
            lemma_same_wf(old(self)@, self@);
        }
        rendered
    }

    /// The held token that the next flush would show.
    pub fn buffered_echo(&self) -> (r: &[u8])
        requires
            self.wf(),
        ensures
            r@ == kept_echo(self@.stream),
    {
        self.streaming.buffered_echo()
    }

    /// Whether the held token completes a redrawn command line.
    pub fn buffered_prompt_echo(&self) -> (r: bool)
        requires
            self.wf(),
        ensures
            r == (kept_echo(self@.stream).len() > 0 && self@.stream.from_echo && prompt_echo(
                self@.stream.tail,
            )),
    {
        self.streaming.buffered_echo_completes_prompt_line()
    }

    /// Shows the held token.
    pub fn flush_input_echo(&mut self) -> (r: Vec<u8>)
        requires
            old(self).wf(),
        ensures
            final(self).wf(),
            final(self).reports() == old(self).reports(),
            shows_echo(old(self)@.stream, r@, final(self)@.stream),
            final(self)@ == (SessionView { stream: final(self)@.stream, ..old(self)@ }),
    {
        let rendered = self.streaming.flush_buffered_echo();
        proof {
            echo_keeps_settings(old(self)@.stream, rendered@, self@.stream);
            lemma_same_wf(old(self)@, self@);
        }
        rendered
    }

    /// Ends the stream.
    pub fn finish(&mut self) -> (r: Vec<u8>)
        requires
            old(self).wf(),
        ensures
            final(self).wf(),
            final(self).reports() == old(self).reports(),
            finishes(old(self)@.stream, r@, final(self)@.stream),
            final(self)@ == (SessionView { stream: final(self)@.stream, ..old(self)@ }),
    {
        let rendered = self.streaming.finish();
        proof {
            finishing_keeps_settings(old(self)@.stream, rendered@, self@.stream);
            lemma_same_wf(old(self)@, self@);
        }
        rendered
    }

    /// The timing, where the session hands it out.
    pub fn benchmark_report(&self) -> (r: Option<&BenchmarkReport>)
        requires
            self.wf(),
        ensures
            match r {
                Some(report) => self.reports() && report.wf() && report@ == self@.stream.timing,
                None => !self.reports(),
            },
    {
        self.streaming.benchmark_report()
    }

    /// The rule to warn of, once in a session.
    pub fn slow_rule_warning(&mut self) -> (r: Option<RuleWarning>)
        requires
            old(self).wf(),
        ensures
            final(self).wf(),
            final(self).reports() == old(self).reports(),
            option_warning(r) == (if old(self)@.warned {
                None
            } else {
                warning_at(old(self)@.stream, SLOW_RULE_WARN_THRESHOLD)
            }),
            final(self)@ == (SessionView { warned: old(self)@.warned || r is Some, ..old(self)@ }),
    {
        self.slow_rule_warning_at(SLOW_RULE_WARN_THRESHOLD)
    }

    /// The rule to warn of, once in a session, where `threshold` nanoseconds
    /// count as slow.
    pub fn slow_rule_warning_at(&mut self, threshold: u128) -> (r: Option<RuleWarning>)
        requires
            old(self).wf(),
        ensures
            final(self).wf(),
            final(self).reports() == old(self).reports(),
            option_warning(r) == (if old(self)@.warned {
                None
            } else {
                warning_at(old(self)@.stream, threshold)
            }),
            final(self)@ == (SessionView { warned: old(self)@.warned || r is Some, ..old(self)@ }),
    {
        if self.slow_rule_warned {
            return None;
        }
        let warning = match self.streaming.first_rule_error() {
            Some(rule) => {
                let error = match &rule.last {
                    Some(text) => escape_untrusted(text.as_str()),
                    None => escape_untrusted("PCRE2 match error"),
                };
                RuleWarning::Failed {
                    description: escape_untrusted(rule.description.as_str()),
                    error,
                }
            },
            None => match self.streaming.slowest_rule() {
                Some(rule) => {
                    if rule.duration < threshold {
                        return None;
                    }
                    RuleWarning::Slow {
                        description: escape_untrusted(rule.description.as_str()),
                        duration: rule.duration,
                    }
                },
                None => return None,
            },
        };
        self.slow_rule_warned = true;
        proof {
            lemma_same_wf(old(self)@, self@);
        }
        Some(warning)
    }

    /// Whether the session has warned of a rule.
    pub fn slow_rule_warned(&self) -> (r: bool)
        ensures
            r == self@.warned,
    {
        self.slow_rule_warned
    }
}

proof fn lemma_same_wf(s: SessionView, t: SessionView)
    requires
        s.wf(),
        t.profiles == s.profiles,
        t.overlay == s.overlay,
        t.color == s.color,
        t.names == s.names,
        t.cache == s.cache,
        t.rejected == s.rejected,
        t.stream.highlighter == s.stream.highlighter,
    ensures
        t.wf(),
{
    assert forall|i: int|
        #![trigger t.cache[i]]
        0 <= i < t.cache.len() implies t.makes(t.cache[i].names) == Ok::<
        HighlighterView,
        SessionIssue,
    >(t.cache[i].highlighter) by {
        assert(s.cache[i] == t.cache[i]);
    }
    assert forall|i: int| 0 <= i < t.rejected.len() implies t.makes(
        #[trigger] t.rejected[i],
    ) is Err by {
        assert(s.rejected[i] == t.rejected[i]);
    }
}

proof fn lemma_kept_over_fails(
    profiles: Seq<ProfileView>,
    overlay: Seq<RuleView>,
    color: ColorMode,
    current: Seq<Seq<char>>,
    sets: Seq<Seq<Seq<char>>>,
    n: int,
)
    requires
        0 <= n <= sets.len(),
        kept_over(profiles, overlay, color, current, sets.take(n)) is Err,
    ensures
        kept_over(profiles, overlay, color, current, sets) == kept_over(
            profiles,
            overlay,
            color,
            current,
            sets.take(n),
        ),
    decreases sets.len() - n,
{
    if n < sets.len() {
        assert(sets.take(n + 1).drop_last() =~= sets.take(n));
        lemma_kept_over_fails(profiles, overlay, color, current, sets, n + 1);
    } else {
        assert(sets.take(n) =~= sets);
    }
}

} // verus!
