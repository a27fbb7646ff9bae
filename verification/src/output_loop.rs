//! The read loop of a session, without its reading and writing: what each
//! piece of output, of typed input and of news from the outside leads to.

use vstd::prelude::*;

use crate::benchmark::BenchmarkReport;
use crate::bytes::{copy_range, push_all};
use crate::cache::CachedView;
use crate::chunks::{prepare_chunk, prepared, trailing, ChunkFilterState};
use crate::config::{PrismConfig, RuleView};
use crate::controls::visible;
use crate::echo::{echo_flush, should_flush_input_echo, typed_view, EchoFlush};
use crate::lossy::lossy_text;
use crate::options::{
    dynamic_profile_enabled, select_profile_names_with_store, should_continue_auto_detect,
    Options,
};
use crate::profile_runtime::{
    same_names, set_views, sets_of, started, ProfileRuntime, RuntimeModel,
};
use crate::profiles::{ProfileStore, ProfileView};
use crate::prompt_echo::prompt_echo;
use crate::reporter::{option_text, ReporterView};
use crate::selection::only_generic;
use crate::session::{
    built, option_warning, warning_at, SLOW_RULE_WARN_THRESHOLD, HighlightSession,
    ProfileSwitchOutcome, RuleWarning, SessionError, SessionIssue, SessionView,
};
use crate::signals::copy_texts;
use crate::stream_model::{finishes, kept_echo, pushes, shows_echo, Stream};
use crate::streaming::{fresh, AnsiChunk};
use crate::string_filter::OversizedStringControlMode;
use crate::style::ColorMode;
use crate::terminal_text::{escape_untrusted, escaped};
use crate::text::{concat, text_views};

verus! {

/// How many bytes of output are looked at to tell the profile.
pub const AUTO_DETECT_SAMPLE_LIMIT: usize = 65536;

pub open spec fn option_runtime(runtime: Option<ProfileRuntime>) -> Option<RuntimeModel> {
    match runtime {
        Some(r) => Some(r@),
        None => None,
    }
}

/// Whether the answer to a change of profiles counts as accepted.
pub open spec fn accepted(answer: Result<ProfileSwitchOutcome, SessionIssue>) -> bool {
    answer matches Ok(outcome) && outcome != ProfileSwitchOutcome::Rejected
}

/// How the runtime goes on once its proposal was accepted or not.
pub open spec fn answered(runtime: Option<RuntimeModel>, accepted: bool) -> Option<RuntimeModel> {
    match runtime {
        None => None,
        Some(model) => Some(
            if accepted {
                RuntimeModel { rollback: None, ..model }
            } else {
                model.rejected()
            },
        ),
    }
}

/// What the user is told of a change that came by itself: the new profiles,
/// or that the change was ignored and why.
pub open spec fn switch_notice(session: SessionView, names: Seq<Seq<char>>) -> Option<Seq<char>> {
    match session.switched(names).1 {
        Ok(ProfileSwitchOutcome::Switched) => session.reporter.message(names),
        Ok(_) => None,
        Err(issue) => Some(ignored_text() + escaped(issue.message())),
    }
}

pub open spec fn ignored_text() -> Seq<char> {
    "prismtty: automatic profile switch ignored; keeping last known good rules: "@
}

/// Goes over to profiles that the output told of, and lets the runtime know
/// whether that was possible. The text, if any, is for the user.
pub fn apply_automatic_profile_switch(
    session: &mut HighlightSession,
    runtime: &mut Option<ProfileRuntime>,
    profile_names: Vec<String>,
) -> (r: (bool, Option<String>))
    requires
        old(session).wf(),
        option_runtime(*old(runtime)) matches Some(model) ==> model.wf(),
    ensures
        final(session).wf(),
        final(session).reports() == old(session).reports(),
        option_runtime(*final(runtime)) matches Some(model) ==> model.wf(),
        final(session)@ == old(session)@.switched(text_views(profile_names@)).0,
        r.0 == accepted(old(session)@.switched(text_views(profile_names@)).1),
        option_runtime(*final(runtime)) == answered(option_runtime(*old(runtime)), r.0),
        option_text(r.1) == switch_notice(old(session)@, text_views(profile_names@)),
{
    let (accepted, notice) = match session.switch_profiles(profile_names) {
        Ok((outcome, message)) => (outcome != ProfileSwitchOutcome::Rejected, message),
        Err(error) => {
            let message = error.message();
            let shown = escape_untrusted(message.as_str());
            let notice = concat(
                "prismtty: automatic profile switch ignored; keeping last known good rules: ",
                shown.as_str(),
            );
            (false, Some(notice))
        },
    };
    if let Some(model) = runtime.take() {
        let mut model = model;
        if accepted {
            model.accept_transition();
        } else {
            model.reject_transition();
        }
        *runtime = Some(model);
    }
    (accepted, notice)
}

/// The state of the loop.
pub struct LoopView {
    pub carry: Seq<u8>,
    pub mode: OversizedStringControlMode,
    /// The output looked at so far to tell the profile.
    pub sample: Seq<u8>,
    /// Whether more output may tell the profile.
    pub detecting: bool,
    pub session: SessionView,
    pub runtime: Option<RuntimeModel>,
}

/// The runtime once it has seen what was typed.
pub open spec fn after_typing(model: RuntimeModel, typed: Seq<Seq<u8>>) -> RuntimeModel
    decreases typed.len(),
{
    if typed.len() == 0 {
        model
    } else {
        after_typing(model, typed.drop_last()).after_input(typed.last())
    }
}

pub open spec fn byte_views(parts: Seq<Vec<u8>>) -> Seq<Seq<u8>> {
    parts.map_values(|p: Vec<u8>| p@)
}

impl LoopView {
    /// What the runtime makes of typed input and of a chunk of output.
    pub open spec fn proposal(self, typed: Seq<Seq<u8>>, chunk: Seq<u8>) -> (
        Option<RuntimeModel>,
        Option<Seq<Seq<char>>>,
    ) {
        match self.runtime {
            None => (None, None),
            Some(model) => {
                let (next, names) = after_typing(model, typed).after_output(
                    lossy_text(visible(chunk)),
                    self.session.profiles,
                );
                (Some(next), names)
            },
        }
    }

    /// The loop once the session has followed typed input and a chunk of
    /// output.
    pub open spec fn followed(self, typed: Seq<Seq<u8>>, chunk: Seq<u8>) -> LoopView {
        let (runtime, names) = self.proposal(typed, chunk);
        match names {
            None => LoopView { runtime, ..self },
            Some(names) => {
                let (session, answer) = self.session.switched(names);
                LoopView { runtime: answered(runtime, accepted(answer)), session, ..self }
            },
        }
    }

    /// Whether the chunk is looked at to tell the profile.
    pub open spec fn looks(self) -> bool {
        self.detecting && self.sample.len() < AUTO_DETECT_SAMPLE_LIMIT
    }

    /// The session once it has told which profiles are in use.
    pub open spec fn told(self) -> LoopView {
        LoopView {
            session: SessionView {
                reporter: self.session.reporter.told(self.session.names),
                ..self.session
            },
            ..self
        }
    }

    /// The loop once a chunk has been looked at to tell the profile.
    pub open spec fn detected(self, options: Options, chunk: Seq<u8>) -> LoopView {
        if !self.looks() {
            self
        } else {
            let sample = self.sample + chunk;
            let names = options.chosen(self.session.profiles, sample);
            if names != self.session.names {
                let (session, answer) = self.session.switched(names);
                if accepted(answer) {
                    LoopView {
                        sample,
                        session,
                        detecting: options.detects() && only_generic(session.names),
                        ..self
                    }
                } else {
                    (LoopView { sample, session, detecting: false, ..self }).told()
                }
            } else if sample.len() >= AUTO_DETECT_SAMPLE_LIMIT {
                (LoopView { sample, detecting: false, ..self }).told()
            } else {
                LoopView { sample, ..self }
            }
        }
    }

    /// What the user is told when a chunk is looked at: of a change, and of
    /// the profiles in use where no more output is looked at.
    pub open spec fn notices(self, options: Options, chunk: Seq<u8>) -> (
        Option<Seq<char>>,
        Option<Seq<char>>,
    ) {
        let sample = self.sample + chunk;
        let names = options.chosen(self.session.profiles, sample);
        if !self.looks() {
            (None, None)
        } else if names != self.session.names {
            let (session, answer) = self.session.switched(names);
            (
                switch_notice(self.session, names),
                if accepted(answer) {
                    None
                } else {
                    session.reporter.message(session.names)
                },
            )
        } else {
            (
                None,
                if sample.len() >= AUTO_DETECT_SAMPLE_LIMIT {
                    self.session.reporter.message(self.session.names)
                } else {
                    None
                },
            )
        }
    }

    /// The loop once the configuration has been loaded anew, or why that
    /// cannot be used.
    pub open spec fn reloaded(
        self,
        profiles: Seq<ProfileView>,
        overlay: Seq<RuleView>,
    ) -> Result<LoopView, SessionIssue> {
        let retained = match self.runtime {
            Some(model) => sets_of(model.nesting),
            None => Seq::empty(),
        };
        match self.session.reloaded(profiles, overlay, retained) {
            Err(issue) => Err(issue),
            Ok(session) => Ok(
                LoopView {
                    session,
                    runtime: match self.runtime {
                        Some(model) => Some(model.reloaded()),
                        None => None,
                    },
                    ..self
                },
            ),
        }
    }
}

/// The loop once the first output has been read.
pub open spec fn opened(
    options: Options,
    profiles: Seq<ProfileView>,
    overlay: Seq<RuleView>,
    interactive: bool,
    color: ColorMode,
    typed_seen: bool,
    first: Seq<u8>,
) -> Result<LoopView, SessionIssue> {
    let ready = prepared(
        Seq::empty(),
        OversizedStringControlMode::Normal,
        options.strip_ansi,
        options.sanitize,
        first,
    );
    let names = options.chosen(profiles, ready.chunk);
    let follows = options.follows(interactive) && typed_seen;
    match built(profiles, overlay, names, color) {
        Err(issue) => Err(issue),
        Ok(highlighter) => Ok(
            (LoopView {
                carry: ready.carry,
                mode: ready.mode,
                sample: ready.chunk,
                detecting: !follows && options.detects() && only_generic(names),
                session: SessionView {
                    profiles,
                    overlay,
                    color,
                    names,
                    stream: Stream {
                        full_resets: options.no_minimal_reset,
                        ..fresh(highlighter, interactive)
                    },
                    reporter: ReporterView {
                        show: options.show_profile,
                        detects: options.detects(),
                        last: None,
                    },
                    cache: seq![CachedView { names, highlighter }],
                    rejected: Seq::empty(),
                    warned: false,
                },
                runtime: if follows {
                    Some(started(names))
                } else {
                    None
                },
            }).told(),
        ),
    }
}

/// What the user is told first.
pub open spec fn first_report(
    options: Options,
    profiles: Seq<ProfileView>,
    sample: Seq<u8>,
) -> Option<Seq<char>> {
    (ReporterView { show: options.show_profile, detects: options.detects(), last: None }).message(
        options.chosen(profiles, sample),
    )
}

/// Ending the stream can give `left` for the bytes that waited, if any, and
/// `out` behind it.
pub open spec fn ends_with_carry(
    first: Stream,
    carry: Seq<u8>,
    waits: bool,
    left: Option<Seq<u8>>,
    out: Seq<u8>,
    end: Stream,
) -> bool {
    exists|mid: Stream| #[trigger]
        finishes(mid, out, end) && (if waits {
            left matches Some(shown) && pushes(first, carry, shown, mid)
        } else {
            left is None && mid == first
        })
}

/// The read loop of a session.
pub struct OutputLoop {
    options: Options,
    chunk_filter: ChunkFilterState,
    detection_sample: Vec<u8>,
    auto_detect_pending: bool,
    session: HighlightSession,
    runtime: Option<ProfileRuntime>,
}

impl View for OutputLoop {
    type V = LoopView;

    closed spec fn view(&self) -> LoopView {
        LoopView {
            carry: self.chunk_filter.carry@,
            mode: self.chunk_filter.oversized_string_controls.mode,
            sample: self.detection_sample@,
            detecting: self.auto_detect_pending,
            session: self.session@,
            runtime: option_runtime(self.runtime),
        }
    }
}

impl OutputLoop {
    pub closed spec fn wf(&self) -> bool {
        &&& self.chunk_filter.wf()
        &&& self.session.wf()
        &&& option_runtime(self.runtime) matches Some(model) ==> model.wf()
    }

    pub closed spec fn options(&self) -> Options {
        self.options
    }

    /// Whether the session hands out its timing.
    pub closed spec fn reports(&self) -> bool {
        self.session.reports()
    }

    /// Starts a session with the first output. `typed_seen` says whether typed
    /// input will be handed in. With the loop come the first chunk and what
    /// to tell the user.
    pub fn start(
        options: Options,
        store: ProfileStore,
        overlay_config: PrismConfig,
        interactive: bool,
        color: ColorMode,
        typed_seen: bool,
        first: &[u8],
    ) -> (r: Result<(OutputLoop, AnsiChunk, Option<String>), SessionError>)
        requires
            store.wf(),
        ensures
            match opened(
                options,
                store@,
                overlay_config@.rules,
                interactive,
                color,
                typed_seen,
                first@,
            ) {
                Err(issue) => r matches Err(e) && e@ == issue,
                Ok(view) => match r {
                    Err(_) => false,
                    Ok((session, chunk, report)) => session.wf() && session@ == view
                        && session.options() == options && session.reports() == options.benchmark
                        && chunk.wf() && chunk@ == view.sample && option_text(report)
                        == first_report(options, store@, view.sample),
                },
            },
    {
        let mut chunk_filter = ChunkFilterState::default();
        let chunk = prepare_chunk(first, options.strip_ansi, options.sanitize, &mut chunk_filter);
        let bytes = chunk.bytes();
        let detection_sample = copy_range(bytes, 0, bytes.len());
        assert(detection_sample@ =~= chunk@);
        let names = select_profile_names_with_store(&options, &store, bytes);
        let ghost chosen = text_views(names@);
        let mut session = match HighlightSession::new(
            &options,
            store,
            overlay_config,
            interactive,
            color,
            names,
        ) {
            Ok(session) => session,
            Err(e) => return Err(e),
        };
        let report = session.report_current();
        let follows = dynamic_profile_enabled(&options, interactive) && typed_seen;
        let auto_detect_pending = !follows && should_continue_auto_detect(
            &options,
            session.profile_names(),
        );
        let runtime = if follows {
            Some(ProfileRuntime::new(copy_texts(session.profile_names())))
        } else {
            None
        };
        let opened = OutputLoop {
            options,
            chunk_filter,
            detection_sample,
            auto_detect_pending,
            session,
            runtime,
        };
        Ok((opened, chunk, report))
    }

    /// The next chunk of output.
    pub fn read(&mut self, bytes: &[u8]) -> (r: AnsiChunk)
        requires
            old(self).wf(),
        ensures
            final(self).wf(),
            final(self).options() == old(self).options(),
            final(self).reports() == old(self).reports(),
            r.wf(),
            ({
                let next = prepared(
                    old(self)@.carry,
                    old(self)@.mode,
                    old(self).options().strip_ansi,
                    old(self).options().sanitize,
                    bytes@,
                );
                r@ == next.chunk && final(self)@ == (LoopView {
                    carry: next.carry,
                    mode: next.mode,
                    ..old(self)@
                })
            }),
    {
        prepare_chunk(
            bytes,
            self.options.strip_ansi,
            self.options.sanitize,
            &mut self.chunk_filter,
        )
    }

    /// Follows the session: takes note of what was typed and of the chunk, and
    /// goes over to the profiles that they tell of. The text, if any, is for
    /// the user.
    pub fn follow(&mut self, typed: &Vec<Vec<u8>>, chunk: &AnsiChunk) -> (r: Option<String>)
        requires
            old(self).wf(),
            chunk.wf(),
        ensures
            final(self).wf(),
            final(self).options() == old(self).options(),
            final(self).reports() == old(self).reports(),
            final(self)@ == old(self)@.followed(byte_views(typed@), chunk@),
            match old(self)@.proposal(byte_views(typed@), chunk@).1 {
                Some(names) => option_text(r) == switch_notice(old(self)@.session, names),
                None => r is None,
            },
    {
        let ghost before = self@;
        let ghost all = byte_views(typed@);
        let mut runtime = match self.runtime.take() {
            Some(runtime) => runtime,
            None => {
                return None;
            },
        };
        let ghost model = runtime@;
        let mut i: usize = 0;
        assert(all.take(0) =~= Seq::<Seq<u8>>::empty());
        while i < typed.len()
            invariant
                i <= typed@.len(),
                all == byte_views(typed@),
                runtime@.wf(),
                runtime@ == after_typing(model, all.take(i as int)),
            decreases typed@.len() - i,
        {
            assert(all.take(i + 1).drop_last() =~= all.take(i as int));
            assert(all.take(i + 1).last() == typed@[i as int]@);
            runtime.observe_input(typed[i].as_slice());
            i = i + 1;
        }
        assert(all.take(i as int) =~= all);
        let proposed = runtime.observe_output(chunk.visible_bytes(), self.session.profile_store());
        self.runtime = Some(runtime);
        match proposed {
            Some(names) => {
                let (_, notice) = apply_automatic_profile_switch(
                    &mut self.session,
                    &mut self.runtime,
                    names,
                );
                notice
            },
            None => None,
        }
    }

    /// Looks at the chunk to tell the profile, as long as that is open. The
    /// texts, if any, are for the user, in this order.
    pub fn detect(&mut self, chunk: &AnsiChunk) -> (r: (Option<String>, Option<String>))
        requires
            old(self).wf(),
            chunk.wf(),
        ensures
            final(self).wf(),
            final(self).options() == old(self).options(),
            final(self).reports() == old(self).reports(),
            final(self)@ == old(self)@.detected(old(self).options(), chunk@),
            (option_text(r.0), option_text(r.1)) == old(self)@.notices(
                old(self).options(),
                chunk@,
            ),
    {
        if !(self.auto_detect_pending && self.detection_sample.len() < AUTO_DETECT_SAMPLE_LIMIT) {
            return (None, None);
        }
        push_all(&mut self.detection_sample, chunk.bytes());
        let names = select_profile_names_with_store(
            &self.options,
            self.session.profile_store(),
            self.detection_sample.as_slice(),
        );
        if !same_names(&names, self.session.profile_names()) {
            let mut nobody: Option<ProfileRuntime> = None;
            let (accepted, change) = apply_automatic_profile_switch(
                &mut self.session,
                &mut nobody,
                names,
            );
            if accepted {
                self.auto_detect_pending = should_continue_auto_detect(
                    &self.options,
                    self.session.profile_names(),
                );
                (change, None)
            } else {
                self.auto_detect_pending = false;
                let report = self.session.report_current();
                (change, report)
            }
        } else if self.detection_sample.len() >= AUTO_DETECT_SAMPLE_LIMIT {
            self.auto_detect_pending = false;
            let report = self.session.report_current();
            (None, report)
        } else {
            (None, None)
        }
    }

    /// Goes on with a configuration that was loaded anew, unless it does not
    /// give all the rules that are needed.
    pub fn reload(&mut self, next_store: ProfileStore, next_overlay_config: PrismConfig) -> (r:
        Result<(), SessionError>)
        requires
            old(self).wf(),
            next_store.wf(),
        ensures
            final(self).wf(),
            final(self).options() == old(self).options(),
            final(self).reports() == old(self).reports(),
            match old(self)@.reloaded(next_store@, next_overlay_config@.rules) {
                Ok(next) => r is Ok && final(self)@ == next,
                Err(issue) => r matches Err(e) && e@ == issue && final(self)@ == old(self)@,
            },
    {
        let retained = match &self.runtime {
            Some(runtime) => runtime.profile_sets_for_reload(),
            None => {
                let none: Vec<Vec<String>> = Vec::new();
                assert(set_views(none@) =~= Seq::empty());
                none
            },
        };
        match self.session.reload_with_store(next_store, next_overlay_config, &retained) {
            Ok(()) => {
                if let Some(runtime) = self.runtime.take() {
                    let mut runtime = runtime;
                    runtime.accept_reload_generation();
                    self.runtime = Some(runtime);
                }
                Ok(())
            },
            Err(e) => Err(e),
        }
    }

    /// What to show for a chunk.
    pub fn render(&mut self, chunk: &AnsiChunk) -> (r: Vec<u8>)
        requires
            old(self).wf(),
            chunk.wf(),
        ensures
            final(self).wf(),
            final(self).options() == old(self).options(),
            final(self).reports() == old(self).reports(),
            pushes(old(self)@.session.stream, chunk@, r@, final(self)@.session.stream),
            final(self)@ == (LoopView {
                session: SessionView {
                    stream: final(self)@.session.stream,
                    ..old(self)@.session
                },
                ..old(self)@
            }),
    {
        self.session.push(chunk)
    }

    /// The rule to warn of, once for a configuration.
    pub fn warning(&mut self) -> (r: Option<RuleWarning>)
        requires
            old(self).wf(),
        ensures
            final(self).wf(),
            final(self).options() == old(self).options(),
            final(self).reports() == old(self).reports(),
            option_warning(r) == (if old(self)@.session.warned {
                None
            } else {
                warning_at(old(self)@.session.stream, SLOW_RULE_WARN_THRESHOLD)
            }),
            final(self)@ == (LoopView {
                session: SessionView {
                    warned: old(self)@.session.warned || r is Some,
                    ..old(self)@.session
                },
                ..old(self)@
            }),
    {
        self.session.slow_rule_warning()
    }

    /// Shows the held token where it is the echo of what was typed or
    /// completes a redrawn command line, and says why.
    pub fn flush_echo(
        &mut self,
        interactive: bool,
        polled: Option<i32>,
        polled_again: Option<i32>,
        recent_input: &mut Option<Vec<u8>>,
    ) -> (r: Option<(EchoFlush, Vec<u8>)>)
        requires
            old(self).wf(),
        ensures
            final(self).wf(),
            final(self).options() == old(self).options(),
            final(self).reports() == old(self).reports(),
            ({
                let stream = old(self)@.session.stream;
                let held = kept_echo(stream);
                let due = echo_flush(
                    interactive,
                    polled,
                    polled_again,
                    held,
                    held.len() > 0 && stream.from_echo && prompt_echo(stream.tail),
                    typed_view(*old(recent_input)),
                );
                &&& match due {
                    Some(why) => r matches Some((reason, shown)) && reason == why && shows_echo(
                        stream,
                        shown@,
                        final(self)@.session.stream,
                    ) && final(self)@ == (LoopView {
                        session: SessionView {
                            stream: final(self)@.session.stream,
                            ..old(self)@.session
                        },
                        ..old(self)@
                    }),
                    None => r is None && final(self)@ == old(self)@,
                }
                &&& typed_view(*final(recent_input)) == (if due == Some(EchoFlush::EchoSuffix) {
                    Some(Seq::<u8>::empty())
                } else {
                    typed_view(*old(recent_input))
                })
            }),
    {
        let due = should_flush_input_echo(
            interactive,
            polled,
            polled_again,
            self.session.buffered_echo(),
            self.session.buffered_prompt_echo(),
            recent_input,
        );
        match due {
            Some(reason) => {
                let shown = self.session.flush_input_echo();
                Some((reason, shown))
            },
            None => None,
        }
    }

    /// What is left to show at the end of the output, if anything waited for
    /// more, and what ends the stream.
    pub fn finish(&mut self) -> (r: (Option<Vec<u8>>, Vec<u8>))
        requires
            old(self).wf(),
        ensures
            final(self).wf(),
            final(self).options() == old(self).options(),
            final(self).reports() == old(self).reports(),
            ends_with_carry(
                old(self)@.session.stream,
                trailing(
                    old(self).options().strip_ansi,
                    old(self).options().sanitize,
                    old(self)@.carry,
                ),
                old(self)@.carry.len() > 0,
                typed_view(r.0),
                r.1@,
                final(self)@.session.stream,
            ),
            final(self)@ == (LoopView {
                carry: Seq::empty(),
                session: SessionView {
                    stream: final(self)@.session.stream,
                    ..old(self)@.session
                },
                ..old(self)@
            }),
    {
        let ghost first = self.session@.stream;
        let left = match self.chunk_filter.finish(
            self.options.strip_ansi,
            self.options.sanitize,
        ) {
            Some(bytes) => {
                let shown = self.session.push(&AnsiChunk::new(bytes));
                assert(pushes(first, bytes@, shown@, self.session@.stream));
                Some(shown)
            },
            None => None,
        };
        let ghost mid = self.session@.stream;
        let end = self.session.finish();
        assert(finishes(mid, end@, self@.session.stream));
        (left, end)
    }

    /// What to tell the user of the profiles in use.
    pub fn report_current(&mut self) -> (r: Option<String>)
        requires
            old(self).wf(),
        ensures
            final(self).wf(),
            final(self).options() == old(self).options(),
            final(self).reports() == old(self).reports(),
            option_text(r) == old(self)@.session.reporter.message(old(self)@.session.names),
            final(self)@ == old(self)@.told(),
    {
        self.session.report_current()
    }

    /// The timing, where it was asked for.
    pub fn benchmark_report(&self) -> (r: Option<&BenchmarkReport>)
        requires
            self.wf(),
        ensures
            match r {
                Some(report) => self.reports() && report.wf() && report@
                    == self@.session.stream.timing,
                None => !self.reports(),
            },
    {
        self.session.benchmark_report()
    }
}

} // verus!
