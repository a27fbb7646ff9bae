//! What tells that a terminal shows a certain kind of device.

use vstd::prelude::*;

use crate::prompts::PromptMatcherKind;
use crate::text::{
    char_views, chars_of, contains_case_insensitive, contains_ci, copy_text, lines, split_lines,
    starts_with_case_insensitive, starts_with_ci, text_views, trim, trimmed,
};

verus! {

/// Priority of profiles that users load.
pub const USER_PROFILE_RUNTIME_PRIORITY: u16 = 100;

/// Text that tells a device.
#[derive(Clone, Debug)]
pub enum StrongSignal {
    /// The value stands in the text, whatever its case.
    Contains { value: String },
    /// One of the values stands in the text, whatever its case.
    ContainsAny { values: Vec<String> },
    /// A line starts with the prefix and has one of the values on it,
    /// whatever their case.
    LinePrefixAndAny { prefix: String, values: Vec<String> },
}

/// The content of a [`StrongSignal`].
pub enum SignalView {
    Contains(Seq<char>),
    ContainsAny(Seq<Seq<char>>),
    LinePrefixAndAny(Seq<char>, Seq<Seq<char>>),
}

impl View for StrongSignal {
    type V = SignalView;

    open spec fn view(&self) -> SignalView {
        match self {
            StrongSignal::Contains { value } => SignalView::Contains(value@),
            StrongSignal::ContainsAny { values } => SignalView::ContainsAny(text_views(values@)),
            StrongSignal::LinePrefixAndAny { prefix, values } => SignalView::LinePrefixAndAny(
                prefix@,
                text_views(values@),
            ),
        }
    }
}

/// One of `values` stands in `text`, whatever its case.
pub open spec fn contains_some(text: Seq<char>, values: Seq<Seq<char>>) -> bool {
    exists|k: int| 0 <= k < values.len() && contains_ci(text, #[trigger] values[k])
}

/// The line starts with `prefix` and has one of `values` on it.
pub open spec fn marked_line(line: Seq<char>, prefix: Seq<char>, values: Seq<Seq<char>>) -> bool {
    starts_with_ci(trimmed(line), prefix) && contains_some(trimmed(line), values)
}

impl SignalView {
    /// The text gives this signal.
    pub open spec fn given_by(self, text: Seq<char>) -> bool {
        match self {
            SignalView::Contains(value) => contains_ci(text, value),
            SignalView::ContainsAny(values) => contains_some(text, values),
            SignalView::LinePrefixAndAny(prefix, values) => exists|k: int|
                0 <= k < lines(text).len() && marked_line(
                    #[trigger] lines(text)[k],
                    prefix,
                    values,
                ),
        }
    }
}

pub open spec fn signal_views(signals: Seq<StrongSignal>) -> Seq<SignalView> {
    signals.map_values(|s: StrongSignal| s@)
}

/// The text gives one of the signals.
pub open spec fn some_signal(signals: Seq<SignalView>, text: Seq<char>) -> bool {
    exists|k: int| 0 <= k < signals.len() && (#[trigger] signals[k]).given_by(text)
}

fn has_some(text: &[char], values: &Vec<String>) -> (r: bool)
    ensures
        r == contains_some(text@, text_views(values@)),
{
    let ghost all = text_views(values@);
    let mut i: usize = 0;
    while i < values.len()
        invariant
            i <= values@.len(),
            all == text_views(values@),
            forall|k: int| 0 <= k < i ==> !contains_ci(text@, #[trigger] all[k]),
        decreases values@.len() - i,
    {
        assert(all[i as int] == values@[i as int]@);
        if contains_case_insensitive(text, chars_of(values[i].as_str()).as_slice()) {
            return true;
        }
        i = i + 1;
    }
    false
}

pub fn copy_texts(texts: &Vec<String>) -> (r: Vec<String>)
    ensures
        text_views(r@) == text_views(texts@),
{
    let ghost all = text_views(texts@);
    let mut out: Vec<String> = Vec::new();
    let mut i: usize = 0;
    while i < texts.len()
        invariant
            i <= texts@.len(),
            all == text_views(texts@),
            text_views(out@) == all.take(i as int),
        decreases texts@.len() - i,
    {
        let ghost before = text_views(out@);
        out.push(copy_text(texts[i].as_str()));
        assert(text_views(out@) =~= before.push(all[i as int]));
        assert(all.take(i + 1) =~= all.take(i as int).push(all[i as int]));
        i = i + 1;
    }
    assert(all.take(i as int) =~= all);
    out
}

impl StrongSignal {
    pub fn duplicate(&self) -> (r: StrongSignal)
        ensures
            r@ == self@,
    {
        match self {
            StrongSignal::Contains { value } => StrongSignal::Contains {
                value: copy_text(value.as_str()),
            },
            StrongSignal::ContainsAny { values } => StrongSignal::ContainsAny {
                values: copy_texts(values),
            },
            StrongSignal::LinePrefixAndAny { prefix, values } => StrongSignal::LinePrefixAndAny {
                prefix: copy_text(prefix.as_str()),
                values: copy_texts(values),
            },
        }
    }

    /// Whether the text gives this signal.
    pub fn matches(&self, text: &[char]) -> (r: bool)
        ensures
            r == self@.given_by(text@),
    {
        match self {
            StrongSignal::Contains { value } => contains_case_insensitive(
                text,
                chars_of(value.as_str()).as_slice(),
            ),
            StrongSignal::ContainsAny { values } => has_some(text, values),
            StrongSignal::LinePrefixAndAny { prefix, values } => {
                let start = chars_of(prefix.as_str());
                let found = split_lines(text);
                let ghost all = lines(text@);
                assert(char_views(found@).len() == found@.len());
                let mut i: usize = 0;
                while i < found.len()
                    invariant
                        i <= found@.len(),
                        all == lines(text@),
                        char_views(found@) == all,
                        all.len() == found@.len(),
                        start@ == prefix@,
                        self@ == SignalView::LinePrefixAndAny(prefix@, text_views(values@)),
                        forall|k: int|
                            0 <= k < i ==> !marked_line(
                                #[trigger] all[k],
                                prefix@,
                                text_views(values@),
                            ),
                    decreases found@.len() - i,
                {
                    assert(all[i as int] == found@[i as int]@);
                    let line = trim(found[i].as_slice());
                    if starts_with_case_insensitive(line, start.as_slice()) && has_some(
                        line,
                        values,
                    ) {
                        assert(marked_line(all[i as int], prefix@, text_views(values@)));
                        return true;
                    }
                    i = i + 1;
                }
                false
            },
        }
    }
}

/// Whether the text gives one of the signals.
pub fn matches_some(signals: &Vec<StrongSignal>, text: &[char]) -> (r: bool)
    ensures
        r == some_signal(signal_views(signals@), text@),
{
    let ghost all = signal_views(signals@);
    let mut i: usize = 0;
    while i < signals.len()
        invariant
            i <= signals@.len(),
            all == signal_views(signals@),
            forall|k: int| 0 <= k < i ==> !(#[trigger] all[k]).given_by(text@),
        decreases signals@.len() - i,
    {
        assert(all[i as int] == signals@[i as int]@);
        if signals[i].matches(text) {
            return true;
        }
        i = i + 1;
    }
    false
}

/// How much a prompt has to show before it changes the profile.
#[derive(Clone, Copy, Debug, PartialEq, Eq, Structural)]
pub enum PromptConfidence {
    /// It has to come again.
    Repeated,
    /// Once is enough behind a typed remote command.
    SingleAfterRemoteHint,
    /// Once is enough behind a typed remote command or in a local shell.
    SingleFromBaselineOrRemoteHint,
}

impl Default for PromptConfidence {
    fn default() -> (r: PromptConfidence)
        ensures
            r == PromptConfidence::Repeated,
    {
        PromptConfidence::Repeated
    }
}

/// What a profile is told by while a session runs.
#[derive(Clone, Debug)]
pub struct ProfileRuntimeMeta {
    /// Profiles with lower values come first.
    pub priority: u16,
    /// The profile can be that of the local shell.
    pub local_baseline: bool,
    /// Text that tells the profile.
    pub strong_signals: Vec<StrongSignal>,
    /// Text next to which a startup prompt tells nothing.
    pub negative_signals: Vec<StrongSignal>,
    pub startup_prompt: PromptMatcherKind,
    pub runtime_prompt: PromptMatcherKind,
    pub prompt_confidence: PromptConfidence,
}

/// The content of a [`ProfileRuntimeMeta`].
pub struct RuntimeView {
    pub priority: u16,
    pub local_baseline: bool,
    pub strong_signals: Seq<SignalView>,
    pub negative_signals: Seq<SignalView>,
    pub startup_prompt: PromptMatcherKind,
    pub runtime_prompt: PromptMatcherKind,
    pub prompt_confidence: PromptConfidence,
}

impl View for ProfileRuntimeMeta {
    type V = RuntimeView;

    open spec fn view(&self) -> RuntimeView {
        RuntimeView {
            priority: self.priority,
            local_baseline: self.local_baseline,
            strong_signals: signal_views(self.strong_signals@),
            negative_signals: signal_views(self.negative_signals@),
            startup_prompt: self.startup_prompt,
            runtime_prompt: self.runtime_prompt,
            prompt_confidence: self.prompt_confidence,
        }
    }
}

impl RuntimeView {
    /// What a profile of a user has.
    pub open spec fn user() -> RuntimeView {
        RuntimeView {
            priority: USER_PROFILE_RUNTIME_PRIORITY,
            local_baseline: false,
            strong_signals: Seq::empty(),
            negative_signals: Seq::empty(),
            startup_prompt: PromptMatcherKind::NoPrompt,
            runtime_prompt: PromptMatcherKind::NoPrompt,
            prompt_confidence: PromptConfidence::Repeated,
        }
    }

    /// A prompt of the profile stands in the text, and nothing next to it
    /// speaks against it.
    pub open spec fn startup_prompt_in(self, text: Seq<char>) -> bool {
        self.startup_prompt.text(text) && !some_signal(self.negative_signals, text)
    }
}

impl Default for ProfileRuntimeMeta {
    fn default() -> (r: ProfileRuntimeMeta)
        ensures
            r@ == RuntimeView::user(),
    {
        let r = ProfileRuntimeMeta {
            priority: USER_PROFILE_RUNTIME_PRIORITY,
            local_baseline: false,
            strong_signals: Vec::new(),
            negative_signals: Vec::new(),
            startup_prompt: PromptMatcherKind::NoPrompt,
            runtime_prompt: PromptMatcherKind::NoPrompt,
            prompt_confidence: PromptConfidence::Repeated,
        };
        assert(signal_views(r.strong_signals@) =~= Seq::<SignalView>::empty());
        assert(signal_views(r.negative_signals@) =~= Seq::<SignalView>::empty());
        r
    }
}

fn copy_signals(signals: &Vec<StrongSignal>) -> (r: Vec<StrongSignal>)
    ensures
        signal_views(r@) == signal_views(signals@),
{
    let ghost all = signal_views(signals@);
    let mut out: Vec<StrongSignal> = Vec::new();
    let mut i: usize = 0;
    while i < signals.len()
        invariant
            i <= signals@.len(),
            all == signal_views(signals@),
            signal_views(out@) == all.take(i as int),
        decreases signals@.len() - i,
    {
        let ghost before = signal_views(out@);
        out.push(signals[i].duplicate());
        assert(signal_views(out@) =~= before.push(all[i as int]));
        assert(all.take(i + 1) =~= all.take(i as int).push(all[i as int]));
        i = i + 1;
    }
    assert(all.take(i as int) =~= all);
    out
}

impl ProfileRuntimeMeta {
    pub fn duplicate(&self) -> (r: ProfileRuntimeMeta)
        ensures
            r@ == self@,
    {
        ProfileRuntimeMeta {
            priority: self.priority,
            local_baseline: self.local_baseline,
            strong_signals: copy_signals(&self.strong_signals),
            negative_signals: copy_signals(&self.negative_signals),
            startup_prompt: self.startup_prompt,
            runtime_prompt: self.runtime_prompt,
            prompt_confidence: self.prompt_confidence,
        }
    }

    pub fn matches_strong_signal(&self, text: &[char]) -> (r: bool)
        ensures
            r == some_signal(self@.strong_signals, text@),
    {
        matches_some(&self.strong_signals, text)
    }

    pub fn matches_startup_prompt(&self, text: &[char]) -> (r: bool)
        ensures
            r == self@.startup_prompt_in(text@),
    {
        self.startup_prompt.matches(text) && !matches_some(&self.negative_signals, text)
    }

    pub fn matches_runtime_prompt(&self, text: &[char]) -> (r: bool)
        ensures
            r == self@.runtime_prompt.text(text@),
    {
        self.runtime_prompt.matches(text)
    }
}

} // verus!
