//! Profiles while a session runs: what is typed and what is shown change the
//! active profile, and remote sessions nest.

use vstd::prelude::*;

use crate::bytes::{ascii_digit, ascii_graphic, is_ascii_digit, is_ascii_graphic};
use crate::lossy::{decode_lossy, lossy_text};
use crate::metadata::{byte_len, text_byte_len};
use crate::profiles::{detected, generic, ProfileStore, ProfileView};
use crate::remote::{
    attempt_of, attempt_view, close_marker_matches, contains_remote_open_failure, copy_attempt,
    copy_target, marker_fits, marker_views, markers_of, observed_close_markers, open_failure,
    remote_attempt, some_close_marker_matches, some_marker_fits, target_view, AttemptView,
    ClosePolicy, MarkerView, ObservedCloseMarker, RemoteAttempt,
};
use crate::selection::{
    all_local, chosen, is_generic_profile_set, only_generic, option_string, option_text,
    specific, switches_at_once, Evidence,
};
use crate::signals::copy_texts;
use crate::text::{
    chars_of, copy_chars, copy_text, lines, lowered, same_text, skip_space, text_from,
    text_views, to_lower_chars, trim_end, trimmed_end,
};
use crate::window::{recent, recent_complete_lines, recent_lines, trim_to_recent_chars};

verus! {

/// Bytes of output that detection looks at.
pub const OUTPUT_WINDOW_LIMIT: usize = 65536;

/// Longest input line that is followed.
pub const INPUT_LINE_LIMIT: usize = 4096;

/// Bytes of output in which the end of a session is looked for.
pub const CLOSE_MARKER_WINDOW_LIMIT: usize = 256;

/// Bytes of output after which detection runs anyway.
pub const DETECTION_BYTE_INTERVAL: usize = 4096;

/// Most sessions that are nested.
pub const PROFILE_STACK_LIMIT: usize = 8;

/// A session that another one is nested in.
#[derive(Clone, Debug)]
pub struct ProfileFrame {
    /// The profiles to go back to.
    pub profiles: Vec<String>,
    pub close_policy: ClosePolicy,
    pub target: Option<Vec<char>>,
    /// The nested session is there, but its profile could not be used.
    pub unresolved_detection: bool,
}

/// The content of a [`ProfileFrame`].
pub struct FrameView {
    pub profiles: Seq<Seq<char>>,
    pub policy: ClosePolicy,
    pub target: Option<Seq<char>>,
    pub unresolved: bool,
}

impl View for ProfileFrame {
    type V = FrameView;

    open spec fn view(&self) -> FrameView {
        FrameView {
            profiles: text_views(self.profiles@),
            policy: self.close_policy,
            target: target_view(self.target),
            unresolved: self.unresolved_detection,
        }
    }
}

pub open spec fn frame_views(frames: Seq<ProfileFrame>) -> Seq<FrameView> {
    frames.map_values(|f: ProfileFrame| f@)
}

pub open spec fn option_texts(names: Option<Vec<String>>) -> Option<Seq<Seq<char>>> {
    match names {
        Some(v) => Some(text_views(v@)),
        None => None,
    }
}

/// Which profiles are active, and how sessions are nested.
#[derive(Clone, Debug)]
pub struct ProfileTransitionState {
    pub active_profiles: Vec<String>,
    pub baseline_profiles: Vec<String>,
    pub stack: Vec<ProfileFrame>,
    pub pending_remote: Option<RemoteAttempt>,
    pub baseline_locked: bool,
    pub pending_prompt_profiles: Option<Vec<String>>,
    pub pending_prompt_hits: usize,
}

/// The content of a [`ProfileTransitionState`].
pub struct Nesting {
    pub active: Seq<Seq<char>>,
    /// The profiles of the local shell.
    pub baseline: Seq<Seq<char>>,
    /// The sessions around the current one, outermost first.
    pub stack: Seq<FrameView>,
    /// A remote session that was asked for and has not shown yet.
    pub pending: Option<AttemptView>,
    /// The profiles of the local shell are known.
    pub locked: bool,
    /// Profiles that a prompt spoke for, and how often.
    pub prompt: Option<Seq<Seq<char>>>,
    pub hits: int,
}

impl View for ProfileTransitionState {
    type V = Nesting;

    open spec fn view(&self) -> Nesting {
        Nesting {
            active: text_views(self.active_profiles@),
            baseline: text_views(self.baseline_profiles@),
            stack: frame_views(self.stack@),
            pending: attempt_view(self.pending_remote),
            locked: self.baseline_locked,
            prompt: option_texts(self.pending_prompt_profiles),
            hits: self.pending_prompt_hits as int,
        }
    }
}

/// The generic profile and one other.
pub open spec fn pair_with_generic(name: Seq<char>) -> Seq<Seq<char>> {
    seq![generic(), name]
}

/// Where `profiles` first stands in the stack, from `i` on.
pub open spec fn frame_with(stack: Seq<FrameView>, profiles: Seq<Seq<char>>, i: int) -> Option<int>
    decreases stack.len() - i,
{
    if !(0 <= i < stack.len()) {
        None
    } else if stack[i].profiles == profiles {
        Some(i)
    } else {
        frame_with(stack, profiles, i + 1)
    }
}

impl Nesting {
    pub open spec fn wf(self) -> bool {
        self.stack.len() <= PROFILE_STACK_LIMIT && 0 <= self.hits <= 1
    }

    pub open spec fn without_prompt(self) -> Nesting {
        Nesting { prompt: None, hits: 0, ..self }
    }

    /// A new session is nested in the current one. Where there are too many,
    /// the oldest but one is forgotten: the first leads back to the local
    /// shell.
    pub open spec fn pushed(self, attempt: AttemptView, unresolved: bool) -> Nesting {
        let kept = if self.stack.len() >= PROFILE_STACK_LIMIT {
            self.stack.remove(1)
        } else {
            self.stack
        };
        Nesting {
            stack: kept.push(
                FrameView {
                    profiles: self.active,
                    policy: attempt.policy,
                    target: attempt.target,
                    unresolved,
                },
            ),
            ..self
        }
    }

    /// The innermost session has its profile.
    pub open spec fn resolved(self) -> Nesting {
        if self.stack.len() == 0 {
            self
        } else {
            Nesting {
                stack: self.stack.update(
                    self.stack.len() - 1,
                    FrameView { unresolved: false, ..self.stack.last() },
                ),
                ..self
            }
        }
    }

    /// The change to `profiles`, and the profiles that the display has to
    /// change to, if any. A remote session that was asked for is nested. Else
    /// profiles of a session further out end the sessions in between, and
    /// other profiles refine the current session.
    pub open spec fn switched(
        self,
        profiles: Seq<Seq<char>>,
        attempt: Option<AttemptView>,
        from_baseline: bool,
    ) -> (Nesting, Option<Seq<Seq<char>>>) {
        if only_generic(profiles) {
            (self, None)
        } else if let Some(a) = attempt {
            (
                Nesting { active: profiles, ..self.pushed(a, false) },
                if profiles != self.active {
                    Some(profiles)
                } else {
                    None
                },
            )
        } else {
            let n = self.resolved();
            if profiles == n.active {
                (n, None)
            } else if let Some(i) = frame_with(n.stack, profiles, 0) {
                (Nesting { active: profiles, stack: n.stack.take(i), ..n }, Some(profiles))
            } else if profiles == n.baseline {
                (Nesting { active: profiles, stack: Seq::empty(), ..n }, Some(profiles))
            } else if from_baseline {
                (
                    Nesting {
                        active: profiles,
                        ..n.pushed(
                            AttemptView { policy: ClosePolicy::Generic, target: None },
                            false,
                        )
                    },
                    Some(profiles),
                )
            } else {
                (Nesting { active: profiles, ..n }, Some(profiles))
            }
        }
    }

    /// The innermost session ended.
    pub open spec fn popped(self) -> (Nesting, Option<Seq<Seq<char>>>) {
        let next = if self.stack.len() > 0 {
            self.stack.last().profiles
        } else {
            self.baseline
        };
        let stack = if self.stack.len() > 0 {
            self.stack.drop_last()
        } else {
            self.stack
        };
        (
            Nesting { active: next, stack, ..self },
            if next == self.active {
                None
            } else {
                Some(next)
            },
        )
    }

    /// The session is the local shell.
    pub open spec fn at_local_baseline(self, profiles: Seq<ProfileView>) -> bool {
        self.stack.len() == 0 && self.active == self.baseline && all_local(profiles, self.active)
    }

    /// `names` are the profiles of the local shell, which were not known yet.
    pub open spec fn learns(self, names: Seq<Seq<char>>, profiles: Seq<ProfileView>) -> bool {
        !self.locked && self.stack.len() == 0 && only_generic(self.active) && !only_generic(names)
            && all_local(profiles, names)
    }

    /// A line ended the innermost session, and not the one that was asked for.
    pub open spec fn top_closed_by_name(self, ms: Seq<MarkerView>) -> bool {
        self.stack.len() > 0 && exists|k: int|
            0 <= k < ms.len() && #[trigger] self.names_top_only(ms[k])
    }

    pub open spec fn names_top_only(self, m: MarkerView) -> bool {
        m.target is Some && marker_fits(m, self.stack.last().policy, self.stack.last().target)
            && !(match self.pending {
            Some(p) => p.target is Some && marker_fits(m, p.policy, p.target),
            None => false,
        })
    }

    pub open spec fn pending_closed(self, ms: Seq<MarkerView>) -> bool {
        match self.pending {
            Some(p) => some_marker_fits(ms, p.policy, p.target),
            None => false,
        }
    }

    pub open spec fn top_closed(self, ms: Seq<MarkerView>) -> bool {
        self.stack.len() > 0 && some_marker_fits(
            ms,
            self.stack.last().policy,
            self.stack.last().target,
        )
    }
}

/// Where a key sequence of the input is.
#[derive(Clone, Copy, Debug, PartialEq, Eq, Structural)]
pub enum InputEscapeState {
    Idle,
    Esc,
    Csi { parameter: u16, numeric: bool },
    Ss3,
}

/// All that is known of a running session.
pub struct RuntimeModel {
    pub nesting: Nesting,
    /// The recent output.
    pub window: Seq<char>,
    /// Bytes of output since the last detection.
    pub since: int,
    /// The input line, as far as it is known.
    pub line: Seq<char>,
    /// The input line is known.
    pub reliable: bool,
    /// What the line asked for before it was no longer known.
    pub doubtful: Option<AttemptView>,
    pub escape: InputEscapeState,
    /// What to go back to where the last change is rejected.
    pub rollback: Option<Nesting>,
}

/// A change of profiles is proposed, or not.
pub type Proposal = Option<Seq<Seq<char>>>;

/// `n`, or the largest `usize`.
pub open spec fn limited(n: int) -> int {
    if n <= usize::MAX {
        n
    } else {
        usize::MAX as int
    }
}

/// A CSI parameter with one more digit; it stops at the largest `u16`.
pub open spec fn with_digit(n: u16, digit: u8) -> u16 {
    let tens = if 10 * n > 0xffff {
        0xffffint
    } else {
        10 * n
    };
    let sum = tens + (digit - 0x30);
    if sum > 0xffff {
        0xffff
    } else {
        sum as u16
    }
}

/// `text` ends where a prompt ends.
pub open spec fn at_prompt_end(text: Seq<char>) -> bool {
    let t = trimmed_end(text);
    t.len() > 0 && (t.last() == '#' || t.last() == '>' || t.last() == '$' || t.last() == '%')
}

/// A line ends in `text`.
pub open spec fn has_break(text: Seq<char>) -> bool {
    exists|k: int| 0 <= k < text.len() && (#[trigger] text[k] == '\r' || text[k] == '\n')
}

impl RuntimeModel {
    pub open spec fn wf(self) -> bool {
        &&& self.nesting.wf()
        &&& byte_len(self.window) <= OUTPUT_WINDOW_LIMIT
        &&& 0 <= self.since <= usize::MAX
        &&& self.line.len() <= INPUT_LINE_LIMIT
        &&& match self.rollback {
            Some(n) => n.wf(),
            None => true,
        }
    }

    pub open spec fn without_window(self) -> RuntimeModel {
        RuntimeModel { window: Seq::empty(), since: 0, ..self }
    }

    /// With nothing of the recent output and of prompts in mind.
    pub open spec fn settled(self) -> RuntimeModel {
        RuntimeModel { nesting: self.nesting.without_prompt(), ..self.without_window() }
    }

    /// The input line is no longer known.
    pub open spec fn line_lost(self) -> RuntimeModel {
        RuntimeModel {
            doubtful: if self.reliable {
                match attempt_of(self.line) {
                    Some(a) => Some(AttemptView { target: None, ..a }),
                    None => None,
                }
            } else {
                self.doubtful
            },
            line: Seq::empty(),
            reliable: false,
            ..self
        }
    }

    pub open spec fn line_empty(self) -> RuntimeModel {
        RuntimeModel { line: Seq::empty(), reliable: true, doubtful: None, ..self }
    }

    /// A remote session is asked for, or no longer.
    pub open spec fn armed(self, attempt: Option<AttemptView>) -> RuntimeModel {
        let m = RuntimeModel { nesting: Nesting { pending: attempt, ..self.nesting }, ..self };
        if attempt is Some {
            RuntimeModel { nesting: Nesting { locked: true, ..m.nesting }, ..m }.settled()
        } else {
            m
        }
    }

    /// The input line is entered.
    pub open spec fn line_entered(self) -> RuntimeModel {
        if self.reliable {
            self.armed(attempt_of(self.line.skip(skip_space(self.line, 0)))).line_empty()
        } else if self.doubtful is Some {
            self.armed(self.doubtful).line_empty()
        } else {
            self.line_empty()
        }
    }

    /// One byte is typed outside of a key sequence.
    pub open spec fn typed_plain(self, b: u8) -> RuntimeModel {
        if b == 0x1b {
            RuntimeModel { escape: InputEscapeState::Esc, ..self }
        } else if b == 0x03 {
            RuntimeModel { nesting: Nesting { pending: None, ..self.nesting }, ..self.line_empty() }
        } else if b == 0x15 {
            self.line_empty()
        } else if b == 0x0d || b == 0x0a {
            self.line_entered()
        } else if b == 0x08 || b == 0x7f {
            if self.reliable && self.line.len() > 0 {
                RuntimeModel { line: self.line.drop_last(), ..self }
            } else {
                self
            }
        } else if (ascii_graphic(b) || b == 0x20 || b == 0x09) && self.reliable && self.line.len()
            < INPUT_LINE_LIMIT {
            RuntimeModel { line: self.line.push(b as char), ..self }
        } else {
            self.line_lost()
        }
    }

    /// One byte is typed.
    pub open spec fn typed(self, b: u8) -> RuntimeModel {
        match self.escape {
            InputEscapeState::Idle => self.typed_plain(b),
            InputEscapeState::Esc => if b == 0x5b {
                RuntimeModel {
                    escape: InputEscapeState::Csi { parameter: 0, numeric: true },
                    ..self
                }
            } else if b == 0x4f {
                RuntimeModel { escape: InputEscapeState::Ss3, ..self }
            } else {
                RuntimeModel { escape: InputEscapeState::Idle, ..self.line_lost() }
            },
            InputEscapeState::Csi { parameter, numeric } => if 0x40 <= b <= 0x7e {
                if numeric && b == 0x7e && (parameter == 200 || parameter == 201) {
                    RuntimeModel { escape: InputEscapeState::Idle, ..self }
                } else {
                    RuntimeModel { escape: InputEscapeState::Idle, ..self.line_lost() }
                }
            } else if numeric && ascii_digit(b) {
                RuntimeModel {
                    escape: InputEscapeState::Csi {
                        parameter: with_digit(parameter, b),
                        numeric: true,
                    },
                    ..self
                }
            } else {
                RuntimeModel {
                    escape: InputEscapeState::Csi { parameter, numeric: false },
                    ..self
                }
            },
            InputEscapeState::Ss3 => RuntimeModel {
                escape: InputEscapeState::Idle,
                ..self.line_lost()
            },
        }
    }

    /// The bytes are typed, one after another.
    pub open spec fn after_input(self, input: Seq<u8>) -> RuntimeModel
        decreases input.len(),
    {
        if input.len() == 0 {
            self
        } else {
            self.after_input(input.drop_last()).typed(input.last())
        }
    }

    /// With `text` in the recent output.
    pub open spec fn with_output(self, text: Seq<char>) -> RuntimeModel {
        RuntimeModel {
            window: recent(self.window + text, OUTPUT_WINDOW_LIMIT as int),
            since: limited(self.since + byte_len(text)),
            ..self
        }
    }

    /// What the recent lines tell of the end of sessions.
    pub open spec fn markers(self) -> Seq<MarkerView> {
        markers_of(lines(recent_lines(lowered(self.window), CLOSE_MARKER_WINDOW_LIMIT as int)))
    }

    /// The session that was asked for did not come about.
    pub open spec fn failed_to_open(self) -> bool {
        match self.nesting.pending {
            Some(p) => open_failure(lowered(self.window), p.policy),
            None => false,
        }
    }

    /// Without the session that was asked for.
    pub open spec fn given_up(self) -> RuntimeModel {
        RuntimeModel { nesting: Nesting { pending: None, ..self.nesting }, ..self }.settled()
    }

    /// It is time to look which profiles the output tells.
    pub open spec fn detects(self, text: Seq<char>) -> bool {
        self.nesting.pending is Some || self.since >= DETECTION_BYTE_INTERVAL || has_break(text)
            || at_prompt_end(text)
    }

    /// The change to `profiles`.
    pub open spec fn changed(self, profiles: Seq<Seq<char>>, from_baseline: bool) -> (
        RuntimeModel,
        Proposal,
    ) {
        let m = self.given_up();
        let (n, p) = m.nesting.switched(profiles, self.nesting.pending, from_baseline);
        (RuntimeModel { nesting: n, ..m }, p)
    }

    /// A prompt spoke for `profiles`; the second time it changes them.
    pub open spec fn prompt_noted(self, profiles: Seq<Seq<char>>, from_baseline: bool) -> (
        RuntimeModel,
        Proposal,
    ) {
        if self.nesting.prompt == Some(profiles) && self.nesting.hits >= 1 {
            self.changed(profiles, from_baseline)
        } else {
            let hits = if self.nesting.prompt == Some(profiles) {
                self.nesting.hits + 1
            } else {
                1
            };
            (
                RuntimeModel {
                    nesting: Nesting { prompt: Some(profiles), hits, ..self.nesting },
                    ..self
                },
                None,
            )
        }
    }

    /// What the profiles that the output tells, which are not those of the
    /// current session, change.
    pub open spec fn weighed(self, names: Seq<Seq<char>>, profiles: Seq<ProfileView>) -> (
        RuntimeModel,
        Proposal,
    ) {
        let n = self.nesting;
        let active = specific(profiles, n.active);
        let local = n.at_local_baseline(profiles);
        let remote = n.pending is Some || (n.stack.len() > 0 && n.stack.last().unresolved);
        let signal = chosen(profiles, names, Evidence::Signal, self.window, active);
        let prompt = chosen(profiles, names, Evidence::Prompt, self.window, active);
        if let Some(name) = signal {
            self.changed(pair_with_generic(name), local)
        } else if (remote || active is None || local) && prompt is Some {
            let name = prompt->Some_0;
            if switches_at_once(profiles, name, remote, local) {
                self.changed(pair_with_generic(name), local)
            } else {
                self.prompt_noted(pair_with_generic(name), local)
            }
        } else if active is Some {
            (self.settled(), None)
        } else {
            (RuntimeModel { nesting: n.without_prompt(), ..self }, None)
        }
    }

    /// What the profiles that the output tells change.
    pub open spec fn detected_change(self, profiles: Seq<ProfileView>) -> (RuntimeModel, Proposal) {
        let n = self.nesting;
        let names = detected(profiles, self.window);
        if only_generic(names) {
            (RuntimeModel { nesting: n.without_prompt(), ..self }, None)
        } else if names == n.active {
            if n.pending is Some {
                (self.changed(n.active, false).0, None)
            } else {
                (RuntimeModel { nesting: n.without_prompt(), ..self }, None)
            }
        } else if n.learns(names, profiles) {
            (
                RuntimeModel {
                    nesting: Nesting { active: names, baseline: names, locked: true, ..n },
                    ..self
                }.settled(),
                Some(names),
            )
        } else {
            self.weighed(names, profiles)
        }
    }

    /// What output changes.
    pub open spec fn shown(self, text: Seq<char>, profiles: Seq<ProfileView>) -> (
        RuntimeModel,
        Proposal,
    ) {
        let m = self.with_output(text);
        let n = m.nesting;
        let ms = m.markers();
        if text.len() == 0 {
            (self, None)
        } else if n.top_closed_by_name(ms) || (!n.pending_closed(ms) && n.top_closed(ms)) {
            let g = m.given_up();
            let (popped, p) = g.nesting.popped();
            (RuntimeModel { nesting: popped, ..g }, p)
        } else if n.pending_closed(ms) || m.failed_to_open() {
            (m.given_up(), None)
        } else if !m.detects(text) {
            (m, None)
        } else {
            RuntimeModel { since: 0, ..m }.detected_change(profiles)
        }
    }

    /// What output changes, with the way back where it proposes a change.
    pub open spec fn after_output(self, text: Seq<char>, profiles: Seq<ProfileView>) -> (
        RuntimeModel,
        Proposal,
    ) {
        let (m, p) = RuntimeModel { rollback: None, ..self }.shown(text, profiles);
        if p is Some {
            (RuntimeModel { rollback: Some(self.nesting), ..m }, p)
        } else {
            (m, p)
        }
    }

    /// The last change could not be made: the profiles are those from before
    /// it. A remote session that it confirmed stays nested.
    pub open spec fn rejected(self) -> RuntimeModel {
        match self.rollback {
            None => self,
            Some(n) => {
                let back = Nesting { pending: None, ..n };
                RuntimeModel {
                    nesting: match n.pending {
                        Some(a) => back.pushed(a, true),
                        None => back,
                    },
                    rollback: None,
                    ..self
                }.settled()
            },
        }
    }

    /// A new configuration is in use.
    pub open spec fn reloaded(self) -> RuntimeModel {
        RuntimeModel { rollback: None, ..self }.settled()
    }
}

/// Whether two lists of names are alike.
pub fn same_names(a: &Vec<String>, b: &Vec<String>) -> (r: bool)
    ensures
        r == (text_views(a@) == text_views(b@)),
{
    let ghost x = text_views(a@);
    let ghost y = text_views(b@);
    if a.len() != b.len() {
        assert(x.len() != y.len());
        return false;
    }
    let mut i: usize = 0;
    while i < a.len()
        invariant
            i <= a@.len(),
            a@.len() == b@.len(),
            x == text_views(a@),
            y == text_views(b@),
            forall|k: int| 0 <= k < i ==> #[trigger] x[k] == y[k],
        decreases a@.len() - i,
    {
        assert(x[i as int] == a@[i as int]@);
        assert(y[i as int] == b@[i as int]@);
        if !same_text(a[i].as_str(), b[i].as_str()) {
            return false;
        }
        i = i + 1;
    }
    assert(x =~= y);
    true
}

fn copy_option_texts(names: &Option<Vec<String>>) -> (r: Option<Vec<String>>)
    ensures
        option_texts(r) == option_texts(*names),
{
    match names {
        Some(v) => Some(copy_texts(v)),
        None => None,
    }
}

impl ProfileFrame {
    fn duplicate(&self) -> (r: ProfileFrame)
        ensures
            r@ == self@,
    {
        ProfileFrame {
            profiles: copy_texts(&self.profiles),
            close_policy: self.close_policy,
            target: copy_target(&self.target),
            unresolved_detection: self.unresolved_detection,
        }
    }
}

fn copy_frames(frames: &Vec<ProfileFrame>) -> (r: Vec<ProfileFrame>)
    ensures
        frame_views(r@) == frame_views(frames@),
{
    let ghost all = frame_views(frames@);
    let mut out: Vec<ProfileFrame> = Vec::new();
    let mut i: usize = 0;
    while i < frames.len()
        invariant
            i <= frames@.len(),
            all == frame_views(frames@),
            frame_views(out@) == all.take(i as int),
        decreases frames@.len() - i,
    {
        let ghost before = frame_views(out@);
        out.push(frames[i].duplicate());
        assert(frame_views(out@) =~= before.push(all[i as int]));
        assert(all.take(i + 1) =~= all.take(i as int).push(all[i as int]));
        i = i + 1;
    }
    assert(all.take(i as int) =~= all);
    out
}

fn profile_set(profile: &str) -> (r: Vec<String>)
    ensures
        text_views(r@) == pair_with_generic(profile@),
{
    let mut r: Vec<String> = Vec::new();
    r.push(copy_text("generic"));
    r.push(copy_text(profile));
    assert(text_views(r@) =~= pair_with_generic(profile@));
    r
}

impl ProfileTransitionState {
    pub fn duplicate(&self) -> (r: ProfileTransitionState)
        ensures
            r@ == self@,
    {
        ProfileTransitionState {
            active_profiles: copy_texts(&self.active_profiles),
            baseline_profiles: copy_texts(&self.baseline_profiles),
            stack: copy_frames(&self.stack),
            pending_remote: copy_attempt(&self.pending_remote),
            baseline_locked: self.baseline_locked,
            pending_prompt_profiles: copy_option_texts(&self.pending_prompt_profiles),
            pending_prompt_hits: self.pending_prompt_hits,
        }
    }

    fn clear_pending_prompt(&mut self)
        ensures
            final(self)@ == old(self)@.without_prompt(),
    {
        self.pending_prompt_profiles = None;
        self.pending_prompt_hits = 0;
    }

    fn push_frame(&mut self, attempt: RemoteAttempt, unresolved_detection: bool)
        requires
            old(self)@.wf(),
        ensures
            final(self)@ == old(self)@.pushed(attempt@, unresolved_detection),
            final(self)@.wf(),
    {
        let ghost was = self@;
        let ghost a = attempt@;
        assert(was.stack.len() == self.stack@.len());
        if self.stack.len() >= PROFILE_STACK_LIMIT {
            let _ = self.stack.remove(1);
            assert(frame_views(self.stack@) =~= was.stack.remove(1));
        }
        let ghost kept = frame_views(self.stack@);
        self.stack.push(
            ProfileFrame {
                profiles: copy_texts(&self.active_profiles),
                close_policy: attempt.policy,
                target: attempt.target,
                unresolved_detection,
            },
        );
        assert(frame_views(self.stack@) =~= kept.push(
            FrameView {
                profiles: was.active,
                policy: a.policy,
                target: a.target,
                unresolved: unresolved_detection,
            },
        ));
    }

    fn resolve_top(&mut self)
        ensures
            final(self)@ == old(self)@.resolved(),
    {
        let ghost was = self@;
        assert(was.stack.len() == self.stack@.len());
        if self.stack.len() > 0 {
            let top = self.stack.len() - 1;
            let old_frame = &self.stack[top];
            let frame = ProfileFrame {
                profiles: copy_texts(&old_frame.profiles),
                close_policy: old_frame.close_policy,
                target: copy_target(&old_frame.target),
                unresolved_detection: false,
            };
            let ghost f = frame@;
            self.stack.set(top, frame);
            assert(frame_views(self.stack@) =~= was.stack.update(top as int, f));
        }
    }

    fn frame_position(&self, profiles: &Vec<String>) -> (r: Option<usize>)
        ensures
            match r {
                Some(i) => frame_with(self@.stack, text_views(profiles@), 0) == Some(i as int) && i
                    < self.stack@.len(),
                None => frame_with(self@.stack, text_views(profiles@), 0) is None,
            },
    {
        let ghost all = self@.stack;
        let ghost names = text_views(profiles@);
        let mut i: usize = 0;
        while i < self.stack.len()
            invariant
                i <= self.stack@.len(),
                all == frame_views(self.stack@),
                names == text_views(profiles@),
                all == self@.stack,
                frame_with(all, names, 0) == frame_with(all, names, i as int),
            decreases self.stack@.len() - i,
        {
            assert(all[i as int] == self.stack@[i as int]@);
            if same_names(&self.stack[i].profiles, profiles) {
                return Some(i);
            }
            i = i + 1;
        }
        None
    }

    fn switch_to(
        &mut self,
        profiles: Vec<String>,
        remote_attempt: Option<RemoteAttempt>,
        open_baseline_frame: bool,
    ) -> (r: Option<Vec<String>>)
        requires
            old(self)@.wf(),
        ensures
            (final(self)@, option_texts(r)) == old(self)@.switched(
                text_views(profiles@),
                attempt_view(remote_attempt),
                open_baseline_frame,
            ),
            final(self)@.wf(),
    {
        let ghost was = self@;
        let ghost names = text_views(profiles@);
        if is_generic_profile_set(&profiles) {
            return None;
        }
        if let Some(attempt) = remote_attempt {
            self.push_frame(attempt, false);
            let changed = !same_names(&profiles, &self.active_profiles);
            self.active_profiles = profiles;
            return if changed {
                Some(copy_texts(&self.active_profiles))
            } else {
                None
            };
        }
        self.resolve_top();
        let ghost n = self@;
        if same_names(&profiles, &self.active_profiles) {
            return None;
        }
        if let Some(i) = self.frame_position(&profiles) {
            self.stack.truncate(i);
            assert(frame_views(self.stack@) =~= n.stack.take(i as int));
            self.active_profiles = profiles;
            return Some(copy_texts(&self.active_profiles));
        }
        if same_names(&profiles, &self.baseline_profiles) {
            self.stack.clear();
            assert(frame_views(self.stack@) =~= Seq::<FrameView>::empty());
            self.active_profiles = copy_texts(&self.baseline_profiles);
            return Some(copy_texts(&self.active_profiles));
        }
        if open_baseline_frame {
            let attempt = RemoteAttempt { policy: ClosePolicy::Generic, target: None };
            assert(attempt@ == (AttemptView { policy: ClosePolicy::Generic, target: None }));
            self.push_frame(attempt, false);
        }
        self.active_profiles = profiles;
        Some(copy_texts(&self.active_profiles))
    }

    fn pop_profile(&mut self) -> (r: Option<Vec<String>>)
        requires
            old(self)@.wf(),
        ensures
            (final(self)@, option_texts(r)) == old(self)@.popped(),
            final(self)@.wf(),
    {
        let ghost was = self@;
        assert(was.stack.len() == self.stack@.len());
        let next = match self.stack.pop() {
            Some(frame) => {
                assert(was.stack.last() == frame@);
                assert(frame_views(self.stack@) =~= was.stack.drop_last());
                frame.profiles
            },
            None => copy_texts(&self.baseline_profiles),
        };
        if same_names(&next, &self.active_profiles) {
            None
        } else {
            self.active_profiles = next;
            Some(copy_texts(&self.active_profiles))
        }
    }

    fn is_at_local_baseline(&self, store: &ProfileStore) -> (r: bool)
        ensures
            r == self@.at_local_baseline(store@),
    {
        assert(self@.stack.len() == self.stack@.len());
        self.stack.len() == 0 && same_names(&self.active_profiles, &self.baseline_profiles)
            && store.profiles_are_local_baseline(&self.active_profiles)
    }

    fn should_learn_baseline(&self, detected: &Vec<String>, store: &ProfileStore) -> (r: bool)
        ensures
            r == self@.learns(text_views(detected@), store@),
    {
        assert(self@.stack.len() == self.stack@.len());
        !self.baseline_locked && self.stack.len() == 0 && is_generic_profile_set(
            &self.active_profiles,
        ) && !is_generic_profile_set(detected) && store.profiles_are_local_baseline(detected)
    }

    fn pending_is_closed(&self, markers: &Vec<ObservedCloseMarker>) -> (r: bool)
        ensures
            r == self@.pending_closed(marker_views(markers@)),
    {
        match &self.pending_remote {
            Some(p) => some_close_marker_matches(markers, p.policy, &p.target),
            None => false,
        }
    }

    fn top_is_closed(&self, markers: &Vec<ObservedCloseMarker>) -> (r: bool)
        ensures
            r == self@.top_closed(marker_views(markers@)),
    {
        assert(self@.stack.len() == self.stack@.len());
        if self.stack.len() == 0 {
            return false;
        }
        let top = self.stack.len() - 1;
        assert(self@.stack.last() == self.stack@[top as int]@);
        some_close_marker_matches(
            markers,
            self.stack[top].close_policy,
            &self.stack[top].target,
        )
    }

    fn marker_names_top_only(&self, m: &ObservedCloseMarker) -> (r: bool)
        requires
            self.stack@.len() > 0,
        ensures
            r == self@.names_top_only(m@),
    {
        let top = self.stack.len() - 1;
        assert(self@.stack.last() == self.stack@[top as int]@);
        if m.target.is_none() {
            return false;
        }
        if !close_marker_matches(m, self.stack[top].close_policy, &self.stack[top].target) {
            return false;
        }
        match &self.pending_remote {
            Some(p) => !(p.target.is_some() && close_marker_matches(m, p.policy, &p.target)),
            None => true,
        }
    }

    fn top_is_closed_by_name(&self, markers: &Vec<ObservedCloseMarker>) -> (r: bool)
        ensures
            r == self@.top_closed_by_name(marker_views(markers@)),
    {
        let ghost all = marker_views(markers@);
        assert(self@.stack.len() == self.stack@.len());
        if self.stack.len() == 0 {
            return false;
        }
        let mut i: usize = 0;
        while i < markers.len()
            invariant
                i <= markers@.len(),
                all == marker_views(markers@),
                self.stack@.len() > 0,
                self@.stack.len() == self.stack@.len(),
                forall|k: int| 0 <= k < i ==> !#[trigger] self@.names_top_only(all[k]),
            decreases markers@.len() - i,
        {
            assert(all[i as int] == markers@[i as int]@);
            if self.marker_names_top_only(&markers[i]) {
                assert(self@.names_top_only(all[i as int]));
                return true;
            }
            i = i + 1;
        }
        false
    }
}

/// Follows a session: which profiles its input and output tell.
#[derive(Clone, Debug)]
pub struct ProfileRuntime {
    state: ProfileTransitionState,
    output_window: Vec<char>,
    output_bytes_since_detection: usize,
    input_line: Vec<char>,
    input_line_reliable: bool,
    unreliable_remote_attempt: Option<RemoteAttempt>,
    input_escape_state: InputEscapeState,
    transition_rollback: Option<ProfileTransitionState>,
}

pub open spec fn option_nesting(s: Option<ProfileTransitionState>) -> Option<Nesting> {
    match s {
        Some(s) => Some(s@),
        None => None,
    }
}

impl View for ProfileRuntime {
    type V = RuntimeModel;

    closed spec fn view(&self) -> RuntimeModel {
        RuntimeModel {
            nesting: self.state@,
            window: self.output_window@,
            since: self.output_bytes_since_detection as int,
            line: self.input_line@,
            reliable: self.input_line_reliable,
            doubtful: attempt_view(self.unreliable_remote_attempt),
            escape: self.input_escape_state,
            rollback: option_nesting(self.transition_rollback),
        }
    }
}

/// A session at its start.
pub open spec fn started(profiles: Seq<Seq<char>>) -> RuntimeModel {
    RuntimeModel {
        nesting: Nesting {
            active: profiles,
            baseline: profiles,
            stack: Seq::empty(),
            pending: None,
            locked: !only_generic(profiles),
            prompt: None,
            hits: 0,
        },
        window: Seq::empty(),
        since: 0,
        line: Seq::empty(),
        reliable: true,
        doubtful: None,
        escape: InputEscapeState::Idle,
        rollback: None,
    }
}

fn next_parameter(n: u16, byte: u8) -> (r: u16)
    requires
        ascii_digit(byte),
    ensures
        r == with_digit(n, byte),
{
    let tens: u32 = if 10 * (n as u32) > 0xffff {
        0xffff
    } else {
        10 * (n as u32)
    };
    let sum: u32 = tens + (byte - 0x30) as u32;
    if sum > 0xffff {
        0xffff
    } else {
        sum as u16
    }
}

fn contains_break(text: &[char]) -> (r: bool)
    ensures
        r == has_break(text@),
{
    let mut i: usize = 0;
    while i < text.len()
        invariant
            i <= text@.len(),
            forall|k: int| 0 <= k < i ==> !(#[trigger] text@[k] == '\r' || text@[k] == '\n'),
        decreases text@.len() - i,
    {
        if text[i] == '\r' || text[i] == '\n' {
            assert(text@[i as int] == '\r' || text@[i as int] == '\n');
            return true;
        }
        i = i + 1;
    }
    false
}

fn looks_like_prompt_detection_boundary(text: &[char]) -> (r: bool)
    ensures
        r == at_prompt_end(text@),
{
    let t = trim_end(text);
    if t.len() == 0 {
        return false;
    }
    let c = t[t.len() - 1];
    c == '#' || c == '>' || c == '$' || c == '%'
}

impl ProfileRuntime {
    /// A session that starts with these profiles.
    pub fn new(initial_profiles: Vec<String>) -> (r: ProfileRuntime)
        ensures
            r@ == started(text_views(initial_profiles@)),
            r@.wf(),
    {
        let baseline_locked = !is_generic_profile_set(&initial_profiles);
        let r = ProfileRuntime {
            state: ProfileTransitionState {
                active_profiles: copy_texts(&initial_profiles),
                baseline_profiles: initial_profiles,
                stack: Vec::new(),
                pending_remote: None,
                baseline_locked,
                pending_prompt_profiles: None,
                pending_prompt_hits: 0,
            },
            output_window: Vec::new(),
            output_bytes_since_detection: 0,
            input_line: Vec::new(),
            input_line_reliable: true,
            unreliable_remote_attempt: None,
            input_escape_state: InputEscapeState::Idle,
            transition_rollback: None,
        };
        assert(frame_views(r.state.stack@) =~= Seq::<FrameView>::empty());
        assert(r.output_window@ =~= Seq::<char>::empty());
        assert(r.input_line@ =~= Seq::<char>::empty());
        r
    }

    /// The active profiles.
    pub fn active_profiles(&self) -> (r: Vec<String>)
        ensures
            text_views(r@) == self@.nesting.active,
    {
        copy_texts(&self.state.active_profiles)
    }

    /// Which profiles are active, and how sessions are nested.
    pub fn state(&self) -> (r: &ProfileTransitionState)
        ensures
            r@ == self@.nesting,
    {
        &self.state
    }

    /// The line being typed, as far as it is known.
    pub fn input_line(&self) -> (r: &[char])
        ensures
            r@ == self@.line,
    {
        self.input_line.as_slice()
    }

    /// Whether the line being typed is known.
    pub fn input_line_reliable(&self) -> (r: bool)
        ensures
            r == self@.reliable,
    {
        self.input_line_reliable
    }

    /// Whether the session is back where it started, in a local shell.
    pub fn at_local_baseline(&self, store: &ProfileStore) -> (r: bool)
        ensures
            r == self@.nesting.at_local_baseline(store@),
    {
        self.state.is_at_local_baseline(store)
    }

    /// Goes over to `profiles`; tells which profiles the display has to change
    /// to, if any.
    pub fn switch_to(
        &mut self,
        profiles: Vec<String>,
        remote_attempt: Option<RemoteAttempt>,
        open_baseline_frame: bool,
    ) -> (r: Option<Vec<String>>)
        requires
            old(self)@.wf(),
        ensures
            final(self)@.wf(),
            ({
                let (nesting, names) = old(self)@.nesting.switched(
                    text_views(profiles@),
                    attempt_view(remote_attempt),
                    open_baseline_frame,
                );
                final(self)@ == (RuntimeModel { nesting, ..old(self)@ }) && option_texts(r) == names
            }),
    {
        self.state.switch_to(profiles, remote_attempt, open_baseline_frame)
    }

    /// Leaves the innermost session; tells which profiles the display has to
    /// change to, if any.
    pub fn pop_profile(&mut self) -> (r: Option<Vec<String>>)
        requires
            old(self)@.wf(),
        ensures
            final(self)@.wf(),
            ({
                let (nesting, names) = old(self)@.nesting.popped();
                final(self)@ == (RuntimeModel { nesting, ..old(self)@ }) && option_texts(r) == names
            }),
    {
        self.state.pop_profile()
    }

    /// How many sessions are around the current one.
    pub fn stack_len(&self) -> (r: usize)
        ensures
            r == self@.nesting.stack.len(),
    {
        assert(frame_views(self.state.stack@).len() == self.state.stack@.len());
        self.state.stack.len()
    }

    fn clear_output_window(&mut self)
        ensures
            final(self)@ == old(self)@.without_window(),
    {
        self.output_window.clear();
        assert(self.output_window@ =~= Seq::<char>::empty());
        self.output_bytes_since_detection = 0;
    }

    fn settle(&mut self)
        ensures
            final(self)@ == old(self)@.settled(),
    {
        self.clear_output_window();
        self.state.clear_pending_prompt();
    }

    fn clear_line(&mut self)
        ensures
            final(self)@ == old(self)@.line_empty(),
    {
        self.input_line.clear();
        assert(self.input_line@ =~= Seq::<char>::empty());
        self.input_line_reliable = true;
        self.unreliable_remote_attempt = None;
    }

    fn invalidate_input_line(&mut self)
        ensures
            final(self)@ == old(self)@.line_lost(),
    {
        if self.input_line_reliable {
            self.unreliable_remote_attempt = match remote_attempt(self.input_line.as_slice()) {
                Some(a) => {
                    let lost = RemoteAttempt { policy: a.policy, target: None };
                    assert(lost@ == (AttemptView { target: None, ..a@ }));
                    Some(lost)
                },
                None => None,
            };
        }
        self.input_line.clear();
        assert(self.input_line@ =~= Seq::<char>::empty());
        self.input_line_reliable = false;
    }

    fn arm_remote_attempt(&mut self, attempt: Option<RemoteAttempt>)
        ensures
            final(self)@ == old(self)@.armed(attempt_view(attempt)),
    {
        let armed = attempt.is_some();
        self.state.pending_remote = attempt;
        if armed {
            self.state.baseline_locked = true;
            self.settle();
        }
    }

    fn enter_line(&mut self)
        ensures
            final(self)@ == old(self)@.line_entered(),
    {
        if self.input_line_reliable {
            let ghost s = self.input_line@;
            let mut start: usize = 0;
            while start < self.input_line.len() && crate::text::is_whitespace(
                self.input_line[start],
            )
                invariant
                    *self == *old(self),
                    s == self.input_line@,
                    start <= s.len(),
                    skip_space(s, 0) == skip_space(s, start as int),
                decreases s.len() - start,
            {
                start = start + 1;
            }
            let line = copy_chars(self.input_line.as_slice(), start, self.input_line.len());
            assert(line@ =~= s.skip(start as int));
            let attempt = remote_attempt(line.as_slice());
            self.arm_remote_attempt(attempt);
        } else if self.unreliable_remote_attempt.is_some() {
            let attempt = copy_attempt(&self.unreliable_remote_attempt);
            self.arm_remote_attempt(attempt);
        }
        self.clear_line();
    }

    fn observe_plain_byte(&mut self, byte: u8)
        requires
            old(self)@.wf(),
        ensures
            final(self)@ == old(self)@.typed_plain(byte),
            final(self)@.wf(),
    {
        if byte == 0x1b {
            self.input_escape_state = InputEscapeState::Esc;
        } else if byte == 0x03 {
            self.clear_line();
            self.state.pending_remote = None;
        } else if byte == 0x15 {
            self.clear_line();
        } else if byte == 0x0d || byte == 0x0a {
            self.enter_line();
            proof {
                lemma_empty_window();
            }
        } else if byte == 0x08 || byte == 0x7f {
            if self.input_line_reliable && self.input_line.len() > 0 {
                let ghost was = self.input_line@;
                let _ = self.input_line.pop();
                assert(self.input_line@ =~= was.drop_last());
            }
        } else if (is_ascii_graphic(byte) || byte == 0x20 || byte == 0x09)
            && self.input_line_reliable && self.input_line.len() < INPUT_LINE_LIMIT {
            self.input_line.push(byte as char);
        } else {
            self.invalidate_input_line();
        }
    }

    fn observe_input_byte(&mut self, byte: u8)
        requires
            old(self)@.wf(),
        ensures
            final(self)@ == old(self)@.typed(byte),
            final(self)@.wf(),
    {
        match self.input_escape_state {
            InputEscapeState::Idle => self.observe_plain_byte(byte),
            InputEscapeState::Esc => {
                if byte == 0x5b {
                    self.input_escape_state = InputEscapeState::Csi {
                        parameter: 0,
                        numeric: true,
                    };
                } else if byte == 0x4f {
                    self.input_escape_state = InputEscapeState::Ss3;
                } else {
                    self.invalidate_input_line();
                    self.input_escape_state = InputEscapeState::Idle;
                }
            },
            InputEscapeState::Csi { parameter, numeric } => {
                if 0x40 <= byte && byte <= 0x7e {
                    if !(numeric && byte == 0x7e && (parameter == 200 || parameter == 201)) {
                        self.invalidate_input_line();
                    }
                    self.input_escape_state = InputEscapeState::Idle;
                } else if numeric && is_ascii_digit(byte) {
                    self.input_escape_state = InputEscapeState::Csi {
                        parameter: next_parameter(parameter, byte),
                        numeric: true,
                    };
                } else {
                    self.input_escape_state = InputEscapeState::Csi { parameter, numeric: false };
                }
            },
            InputEscapeState::Ss3 => {
                self.invalidate_input_line();
                self.input_escape_state = InputEscapeState::Idle;
            },
        }
    }

    /// Takes note of typed bytes: of command lines that open remote sessions.
    pub fn observe_input(&mut self, input: &[u8])
        requires
            old(self)@.wf(),
        ensures
            final(self)@ == old(self)@.after_input(input@),
            final(self)@.wf(),
    {
        let ghost first = self@;
        let mut i: usize = 0;
        assert(input@.take(0) =~= Seq::<u8>::empty());
        while i < input.len()
            invariant
                i <= input@.len(),
                first == old(self)@,
                self@ == first.after_input(input@.take(i as int)),
                self@.wf(),
            decreases input@.len() - i,
        {
            assert(input@.take(i + 1).drop_last() =~= input@.take(i as int));
            self.observe_input_byte(input[i]);
            i = i + 1;
        }
        assert(input@.take(i as int) =~= input@);
    }

    fn give_up_remote(&mut self)
        ensures
            final(self)@ == old(self)@.given_up(),
    {
        self.state.pending_remote = None;
        self.settle();
    }

    fn change_to(&mut self, profiles: Vec<String>, from_baseline: bool) -> (r: Option<Vec<String>>)
        requires
            old(self)@.wf(),
        ensures
            (final(self)@, option_texts(r)) == old(self)@.changed(
                text_views(profiles@),
                from_baseline,
            ),
            final(self)@.wf(),
    {
        proof {
            lemma_empty_window();
        }
        let attempt = copy_attempt(&self.state.pending_remote);
        self.give_up_remote();
        self.state.switch_to(profiles, attempt, from_baseline)
    }

    fn note_prompt_detection(&mut self, detected: Vec<String>, from_baseline: bool) -> (r: Option<
        Vec<String>,
    >)
        requires
            old(self)@.wf(),
        ensures
            (final(self)@, option_texts(r)) == old(self)@.prompt_noted(
                text_views(detected@),
                from_baseline,
            ),
            final(self)@.wf(),
    {
        let again = match &self.state.pending_prompt_profiles {
            Some(profiles) => same_names(profiles, &detected),
            None => false,
        };
        if again && self.state.pending_prompt_hits >= 1 {
            return self.change_to(detected, from_baseline);
        }
        self.state.pending_prompt_hits = 1;
        self.state.pending_prompt_profiles = Some(detected);
        None
    }

    fn weigh(&mut self, detected: &Vec<String>, store: &ProfileStore) -> (r: Option<Vec<String>>)
        requires
            old(self)@.wf(),
        ensures
            (final(self)@, option_texts(r)) == old(self)@.weighed(text_views(detected@), store@),
            final(self)@.wf(),
    {
        proof {
            lemma_empty_window();
        }
        let active = store.active_specific_profile(&self.state.active_profiles);
        let active_name = match &active {
            Some(name) => Some(name.as_str()),
            None => None,
        };
        assert(option_text(active_name) == option_string(active));
        let local = self.state.is_at_local_baseline(store);
        if let Some(name) = store.strong_transition_profile(
            detected,
            self.output_window.as_slice(),
            active_name,
        ) {
            return self.change_to(profile_set(name.as_str()), local);
        }
        assert(self@.nesting.stack.len() == self.state.stack@.len());
        let unresolved = if self.state.stack.len() > 0 {
            let top = self.state.stack.len() - 1;
            assert(self@.nesting.stack.last() == self.state.stack@[top as int]@);
            self.state.stack[top].unresolved_detection
        } else {
            false
        };
        let remote = self.state.pending_remote.is_some() || unresolved;
        if remote || active.is_none() || local {
            if let Some(name) = store.prompt_transition_profile(
                detected,
                self.output_window.as_slice(),
                active_name,
            ) {
                if store.prompt_switches_on_first_detection(name.as_str(), remote, local) {
                    return self.change_to(profile_set(name.as_str()), local);
                }
                return self.note_prompt_detection(profile_set(name.as_str()), local);
            }
        }
        if active.is_some() {
            self.settle();
        } else {
            self.state.clear_pending_prompt();
        }
        None
    }

    fn detect_change(&mut self, store: &ProfileStore) -> (r: Option<Vec<String>>)
        requires
            old(self)@.wf(),
            store.wf(),
        ensures
            (final(self)@, option_texts(r)) == old(self)@.detected_change(store@),
            final(self)@.wf(),
    {
        proof {
            lemma_empty_window();
        }
        let sample = text_from(self.output_window.as_slice());
        let names = store.detect_profiles(sample.as_str());
        if is_generic_profile_set(&names) {
            self.state.clear_pending_prompt();
            return None;
        }
        if same_names(&names, &self.state.active_profiles) {
            if self.state.pending_remote.is_some() {
                let profiles = copy_texts(&self.state.active_profiles);
                let _ = self.change_to(profiles, false);
            } else {
                self.state.clear_pending_prompt();
            }
            return None;
        }
        if self.state.should_learn_baseline(&names, store) {
            self.state.baseline_profiles = copy_texts(&names);
            self.state.active_profiles = copy_texts(&names);
            self.state.baseline_locked = true;
            self.settle();
            return Some(names);
        }
        self.weigh(&names, store)
    }

    fn observe_output_inner(&mut self, text: &[char], store: &ProfileStore) -> (r: Option<
        Vec<String>,
    >)
        requires
            old(self)@.wf(),
            store.wf(),
        ensures
            (final(self)@, option_texts(r)) == old(self)@.shown(text@, store@),
            final(self)@.wf(),
    {
        if text.len() == 0 {
            return None;
        }
        proof {
            lemma_empty_window();
            crate::window::recent_text_is_bounded(
                self@.window + text@,
                OUTPUT_WINDOW_LIMIT as int,
            );
        }
        let ghost before = self@;
        let mut more = copy_chars(text, 0, text.len());
        assert(more@ =~= text@);
        self.output_window.append(&mut more);
        trim_to_recent_chars(&mut self.output_window, OUTPUT_WINDOW_LIMIT);
        let size = text_byte_len(text_from(text).as_str());
        self.output_bytes_since_detection = if size <= usize::MAX
            - self.output_bytes_since_detection {
            self.output_bytes_since_detection + size
        } else {
            usize::MAX
        };
        assert(self@ == before.with_output(text@));
        let ghost m = self@;
        let lower = to_lower_chars(self.output_window.as_slice());
        let markers = observed_close_markers(
            recent_complete_lines(lower.as_slice(), CLOSE_MARKER_WINDOW_LIMIT).as_slice(),
        );
        let pending_closed = self.state.pending_is_closed(&markers);
        if self.state.top_is_closed_by_name(&markers) || (!pending_closed
            && self.state.top_is_closed(&markers)) {
            self.give_up_remote();
            return self.state.pop_profile();
        }
        let failed = match &self.state.pending_remote {
            Some(p) => contains_remote_open_failure(lower.as_slice(), p.policy),
            None => false,
        };
        if pending_closed || failed {
            self.give_up_remote();
            return None;
        }
        let detects = self.state.pending_remote.is_some() || self.output_bytes_since_detection
            >= DETECTION_BYTE_INTERVAL || contains_break(text)
            || looks_like_prompt_detection_boundary(text);
        if !detects {
            return None;
        }
        self.output_bytes_since_detection = 0;
        self.detect_change(store)
    }

    /// Takes note of visible output, given as text; tells which profiles it
    /// changes to, if any.
    pub fn observe_text(&mut self, text: &[char], store: &ProfileStore) -> (r: Option<Vec<String>>)
        requires
            old(self)@.wf(),
            store.wf(),
        ensures
            (final(self)@, option_texts(r)) == old(self)@.after_output(text@, store@),
            final(self)@.wf(),
    {
        self.transition_rollback = None;
        let rollback = self.state.duplicate();
        let transition = self.observe_output_inner(text, store);
        if transition.is_some() {
            self.transition_rollback = Some(rollback);
        }
        transition
    }

    /// Takes note of visible output; tells which profiles it changes to, if
    /// any.
    pub fn observe_output(&mut self, visible_output: &[u8], store: &ProfileStore) -> (r: Option<
        Vec<String>,
    >)
        requires
            old(self)@.wf(),
            store.wf(),
        ensures
            (final(self)@, option_texts(r)) == old(self)@.after_output(
                lossy_text(visible_output@),
                store@,
            ),
            final(self)@.wf(),
    {
        let text = decode_lossy(visible_output);
        self.observe_text(chars_of(text.as_str()).as_slice(), store)
    }

    /// The proposed change is made.
    pub fn accept_transition(&mut self)
        requires
            old(self)@.wf(),
        ensures
            final(self)@ == (RuntimeModel { rollback: None, ..old(self)@ }),
            final(self)@.wf(),
    {
        self.transition_rollback = None;
    }

    /// The proposed change could not be made.
    pub fn reject_transition(&mut self)
        requires
            old(self)@.wf(),
        ensures
            final(self)@ == old(self)@.rejected(),
            final(self)@.wf(),
    {
        proof {
            lemma_empty_window();
        }
        let rollback = match &self.transition_rollback {
            Some(state) => state.duplicate(),
            None => return,
        };
        self.transition_rollback = None;
        let attempt = copy_attempt(&rollback.pending_remote);
        self.state = rollback;
        self.state.pending_remote = None;
        if let Some(a) = attempt {
            self.state.push_frame(a, true);
        }
        self.settle();
    }

    /// All sets of profiles that the session can come back to.
    pub fn profile_sets_for_reload(&self) -> (r: Vec<Vec<String>>)
        ensures
            set_views(r@) == sets_of(self@.nesting),
    {
        let ghost n = self@.nesting;
        let mut sets: Vec<Vec<String>> = Vec::new();
        sets.push(copy_texts(&self.state.baseline_profiles));
        assert(set_views(sets@) =~= seq![n.baseline]);
        let mut i: usize = 0;
        assert(n.stack.take(0) =~= Seq::<FrameView>::empty());
        while i < self.state.stack.len()
            invariant
                i <= self.state.stack@.len(),
                n == self@.nesting,
                n.stack == frame_views(self.state.stack@),
                set_views(sets@) == sets_with(seq![n.baseline], n.stack.take(i as int)),
            decreases self.state.stack@.len() - i,
        {
            assert(n.stack.take(i + 1).drop_last() =~= n.stack.take(i as int));
            assert(n.stack[i as int] == self.state.stack@[i as int]@);
            let ghost before = set_views(sets@);
            let profiles = &self.state.stack[i].profiles;
            let mut known: bool = false;
            let mut k: usize = 0;
            while k < sets.len()
                invariant
                    k <= sets@.len(),
                    before == set_views(sets@),
                    known == exists|j: int|
                        0 <= j < k && #[trigger] before[j] == text_views(profiles@),
                decreases sets@.len() - k,
            {
                assert(before[k as int] == text_views(sets@[k as int]@));
                if same_names(&sets[k], profiles) {
                    assert(before[k as int] == text_views(profiles@));
                    known = true;
                }
                k = k + 1;
            }
            assert(known == before.contains(text_views(profiles@)));
            if !known {
                sets.push(copy_texts(profiles));
                assert(set_views(sets@) =~= before.push(text_views(profiles@)));
            }
            i = i + 1;
        }
        assert(n.stack.take(i as int) =~= n.stack);
        sets
    }

    /// A new configuration is in use.
    pub fn accept_reload_generation(&mut self)
        requires
            old(self)@.wf(),
        ensures
            final(self)@ == old(self)@.reloaded(),
            final(self)@.wf(),
    {
        proof {
            lemma_empty_window();
        }
        self.transition_rollback = None;
        self.settle();
    }
}

proof fn lemma_empty_window()
    ensures
        byte_len(Seq::<char>::empty()) == 0,
{
}

pub open spec fn set_views(sets: Seq<Vec<String>>) -> Seq<Seq<Seq<char>>> {
    sets.map_values(|s: Vec<String>| text_views(s@))
}

/// `sets` with the profiles of the frames that are not among them.
pub open spec fn sets_with(sets: Seq<Seq<Seq<char>>>, frames: Seq<FrameView>) -> Seq<Seq<Seq<char>>>
    decreases frames.len(),
{
    if frames.len() == 0 {
        sets
    } else {
        let before = sets_with(sets, frames.drop_last());
        if before.contains(frames.last().profiles) {
            before
        } else {
            before.push(frames.last().profiles)
        }
    }
}

/// All sets of profiles that a session can come back to, none twice.
pub open spec fn sets_of(n: Nesting) -> Seq<Seq<Seq<char>>> {
    sets_with(seq![n.baseline], n.stack)
}

/// However deep sessions nest, the frame that leads back to the local shell
/// stays, and there are never more than the limit.
pub proof fn nesting_keeps_the_way_back(n: Nesting, attempt: AttemptView, unresolved: bool)
    requires
        n.wf(),
    ensures
        n.pushed(attempt, unresolved).wf(),
        n.stack.len() > 0 ==> n.pushed(attempt, unresolved).stack[0] == n.stack[0],
        n.pushed(attempt, unresolved).stack.last().profiles == n.active,
{
}

/// When a nested session ends, the profiles and sessions around it are what
/// they were before it, unless there were too many to keep.
pub proof fn closing_undoes_opening(
    n: Nesting,
    profiles: Seq<Seq<char>>,
    attempt: AttemptView,
    from_baseline: bool,
)
    requires
        n.wf(),
        !only_generic(profiles),
        n.stack.len() < PROFILE_STACK_LIMIT,
    ensures
        ({
            let opened = n.switched(profiles, Some(attempt), from_baseline).0;
            let closed = opened.popped().0;
            opened.active == profiles && closed.active == n.active && closed.stack == n.stack
                && closed.baseline == n.baseline
        }),
{
    let opened = n.switched(profiles, Some(attempt), from_baseline).0;
    assert(opened.stack.drop_last() =~= n.stack);
}

/// What is typed never changes the active profiles or the nesting by itself.
pub proof fn input_alone_changes_no_profile(m: RuntimeModel, input: Seq<u8>)
    ensures
        m.after_input(input).nesting.active == m.nesting.active,
        m.after_input(input).nesting.baseline == m.nesting.baseline,
        m.after_input(input).nesting.stack == m.nesting.stack,
    decreases input.len(),
{
    if input.len() > 0 {
        input_alone_changes_no_profile(m, input.drop_last());
    }
}

/// A change that is rejected leaves the active profiles as they were before
/// the output that proposed it. A remote session that the output confirmed is
/// nested all the same, so that its end is not taken for that of another.
pub proof fn rejecting_restores_the_profiles(
    m: RuntimeModel,
    text: Seq<char>,
    profiles: Seq<ProfileView>,
)
    requires
        m.wf(),
        m.after_output(text, profiles).1 is Some,
    ensures
        ({
            let back = m.after_output(text, profiles).0.rejected();
            back.nesting.active == m.nesting.active && back.nesting.baseline == m.nesting.baseline
                && back.nesting.locked == m.nesting.locked && back.rollback is None
                && match m.nesting.pending {
                Some(a) => back.nesting.stack == m.nesting.pushed(a, true).stack,
                None => back.nesting.stack == m.nesting.stack,
            }
        }),
{
}

/// Once a profile of a device is active, and no remote session is asked for or
/// ends, output without a strong signal changes nothing.
pub proof fn ordinary_output_keeps_the_profile(
    m: RuntimeModel,
    text: Seq<char>,
    profiles: Seq<ProfileView>,
)
    requires
        m.nesting.pending is None,
        m.nesting.locked,
        specific(profiles, m.nesting.active) is Some,
        !m.nesting.at_local_baseline(profiles),
        m.nesting.stack.len() > 0 ==> !m.nesting.stack.last().unresolved,
        !m.nesting.top_closed(m.with_output(text).markers()),
        chosen(
            profiles,
            detected(profiles, m.with_output(text).window),
            Evidence::Signal,
            m.with_output(text).window,
            specific(profiles, m.nesting.active),
        ) is None,
    ensures
        m.shown(text, profiles).1 is None,
        m.shown(text, profiles).0.nesting.active == m.nesting.active,
        m.shown(text, profiles).0.nesting.stack == m.nesting.stack,
{
    let w = m.with_output(text);
    let ms = w.markers();
    if w.nesting.top_closed_by_name(ms) {
        let k = choose|k: int| 0 <= k < ms.len() && #[trigger] w.nesting.names_top_only(ms[k]);
        assert(marker_fits(ms[k], w.nesting.stack.last().policy, w.nesting.stack.last().target));
        assert(w.nesting.top_closed(ms));
    }
}

} // verus!
