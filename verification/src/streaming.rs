//! Highlighting output that comes in pieces.

use vstd::prelude::*;
use vstd::slice::slice_subrange;
use vstd::string::*;
use vstd::utf8::*;

use crate::benchmark::{failing_from, slowest_of, BenchmarkReport, RuleBenchmark, RuleErrorReport};
use crate::bytes::{copy_range, push_all};
use crate::config::{rule_views, RuleSpec};
use crate::controls::{
    alternate_screen_command, contains_alternate_screen_enable_tokens,
    contains_bracketed_paste_disable_tokens, contains_cursor_positioning_sequence_tokens,
    enables_screen, is_interactive_layout_boundary_sequence, places_cursor, screen_command,
    text_of, text_tokens_are_the_visible_text, token_views, tokenize_ansi, tokens_of, visible,
    visible_bytes, Token, TokenView,
};
use crate::emit::{
    emit_highlighted, emit_interactive_highlighted, highlighted, pen, style_reset_bytes, Inks,
};
use crate::escapes::{flushable_pending_len, incomplete_top_level_escape_start, or_all};
use crate::highlight::{can_become, progress, Highlighter, HighlighterView, Progress};
use crate::lossy::{decode_lossy, lossy_text};
use crate::prompt_echo::{
    chunk_contains_prompt_echo_anywhere, contains_prompt_echo_before_lf_visible,
    contains_prompt_echo_in_visible_line, has_no_printable_visible_bytes,
    looks_like_prompt_tail, prompt_echo, prompt_echo_line_prefix_len,
    promptless_line_tail_visible,
};
use crate::prompt_sgr::{
    neutralize_prompt_echo_source_sgr, prompt_echo_has_active_source_sgr, ResetMode,
};
use crate::sanitize::{
    lemma_oversized_closed_len, neutralize_incomplete_escape_at_eof,
    neutralize_oversized_incomplete_escape, oversized_closed,
};
use crate::sgr::{NativeSgrState, SgrState};
use crate::split::{
    find_first_line_boundary, first_line_end, first_terminal_text_line_boundary,
    streaming_split_at,
};
use crate::stream_model::{
    after_boundary, at_prompt, by_lines, chunk_ends, chunk_run, chunk_start, combined_run,
    finishes, flushes, keeping, kept_echo, left_over, lemma_lines_done, lemma_lines_last,
    lemma_lines_start, lemma_lines_step, lemma_pieces_last, lemma_pieces_start,
    lemma_pieces_step, lemma_tokens_run_push, lines_lead, live_split, output_keeps_settings,
    output_run, pieces_lead, line_run, pieces_run, prompt_run, pushes, rendition, settles, shows_echo,
    starts_echo, taking, token_step, tokens_run, whole_run, VISIBLE_TAIL_BYTES, Step, Stream,
};
use crate::string_filter::{OversizedStringControlFilter, OversizedStringControlMode};
use crate::style::Style;
use crate::utf8::{cut_char_start, incomplete_utf8_start, lemma_cut_char_in_range};

verus! {

/// Bytes with their tokens and what is visible of them.
#[derive(Clone, Debug)]
pub struct AnsiChunk {
    bytes: Vec<u8>,
    tokens: Vec<Token>,
    visible: Vec<u8>,
}

impl View for AnsiChunk {
    type V = Seq<u8>;

    closed spec fn view(&self) -> Seq<u8> {
        self.bytes@
    }
}

impl AnsiChunk {
    pub closed spec fn wf(&self) -> bool {
        token_views(self.tokens@) == tokens_of(self.bytes@) && self.visible@ == visible(self.bytes@)
    }

    pub fn new(bytes: Vec<u8>) -> (r: AnsiChunk)
        ensures
            r.wf(),
            r@ == bytes@,
    {
        let tokens = tokenize_ansi(bytes.as_slice());
        let shown = visible_bytes(tokens.as_slice());
        proof {
            text_tokens_are_the_visible_text(bytes@);
        }
        AnsiChunk { bytes, tokens, visible: shown }
    }

    pub fn from_slice(bytes: &[u8]) -> (r: AnsiChunk)
        ensures
            r.wf(),
            r@ == bytes@,
    {
        let copy = copy_range(bytes, 0, bytes.len());
        assert(copy@ =~= bytes@);
        AnsiChunk::new(copy)
    }

    pub fn bytes(&self) -> (r: &[u8])
        ensures
            r@ == self@,
    {
        self.bytes.as_slice()
    }

    pub fn visible_bytes(&self) -> (r: &[u8])
        requires
            self.wf(),
        ensures
            r@ == visible(self@),
    {
        self.visible.as_slice()
    }

    /// Makes open controls harmless that are too long.
    fn neutralize_oversized_incomplete_escape(&mut self)
        requires
            old(self).wf(),
        ensures
            final(self).wf(),
            final(self)@ == oversized_closed(old(self)@),
    {
        let ghost before = self.bytes@;
        let changed = neutralize_oversized_incomplete_escape(&mut self.bytes);
        if changed {
            self.tokens = tokenize_ansi(self.bytes.as_slice());
            self.visible = visible_bytes(self.tokens.as_slice());
            proof {
                text_tokens_are_the_visible_text(self.bytes@);
            }
        } else {
            proof {
                crate::sanitize::lemma_oversized_unchanged(before);
            }
        }
    }

    fn prefix(&self, len: usize) -> (r: AnsiChunk)
        requires
            len <= self@.len(),
        ensures
            r.wf(),
            r@ == self@.subrange(0, len as int),
    {
        AnsiChunk::new(copy_range(self.bytes.as_slice(), 0, len))
    }

    fn enables_screen(&self) -> (r: bool)
        requires
            self.wf(),
        ensures
            r == enables_screen(tokens_of(self@)),
    {
        contains_alternate_screen_enable_tokens(self.tokens.as_slice())
    }

    fn places_cursor(&self) -> (r: bool)
        requires
            self.wf(),
        ensures
            r == places_cursor(tokens_of(self@)),
    {
        contains_cursor_positioning_sequence_tokens(self.tokens.as_slice())
    }
}

/// Where a live stream is cut.
fn interactive_split_at_chunk(chunk: &AnsiChunk, echoing: bool, alternate_screen: bool) -> (r: usize)
    requires
        chunk.wf(),
    ensures
        r == live_split(chunk@, echoing, alternate_screen),
        r <= chunk@.len(),
{
    if alternate_screen || chunk.enables_screen() || chunk.places_cursor() || echoing {
        match incomplete_top_level_escape_start(chunk.bytes()) {
            Some(at) => at,
            None => chunk.bytes.len(),
        }
    } else {
        streaming_split_at(chunk.bytes())
    }
}

/// Highlighter for output that comes in pieces.
#[derive(Clone, Debug)]
pub struct StreamingHighlighter {
    highlighter: Highlighter,
    pending: Vec<u8>,
    oversized_string_controls: OversizedStringControlFilter,
    pending_from_prompt_echo_remainder: bool,
    alternate_screen: bool,
    passthrough_single_byte_chunks: bool,
    prompt_echo_passthrough: bool,
    visible_line_tail: Vec<u8>,
    native_sgr: NativeSgrState,
    interactive_overlay: Option<Style>,
    no_minimal_resets: bool,
    benchmark: BenchmarkReport,
    benchmark_enabled: bool,
    disabled_rules: Vec<RuleSpec>,
}

impl View for StreamingHighlighter {
    type V = Stream;

    closed spec fn view(&self) -> Stream {
        Stream {
            highlighter: self.highlighter@,
            pending: self.pending@,
            filter: self.oversized_string_controls.mode,
            from_echo: self.pending_from_prompt_echo_remainder,
            alternate: self.alternate_screen,
            live: self.passthrough_single_byte_chunks,
            echoing: self.prompt_echo_passthrough,
            tail: self.visible_line_tail@,
            native: self.native_sgr@,
            overlay: self.interactive_overlay,
            full_resets: self.no_minimal_resets,
            timing: self.benchmark@,
            disabled: rule_views(self.disabled_rules@),
        }
    }
}

/// A stream before its first byte.
pub open spec fn fresh(highlighter: HighlighterView, live: bool) -> Stream {
    Stream {
        highlighter,
        pending: Seq::empty(),
        filter: OversizedStringControlMode::Normal,
        from_echo: false,
        alternate: false,
        live,
        echoing: false,
        tail: Seq::empty(),
        native: SgrState::initial(),
        overlay: None,
        full_resets: false,
        timing: Seq::empty(),
        disabled: Seq::empty(),
    }
}

impl StreamingHighlighter {
    pub closed spec fn wf(&self) -> bool {
        self.benchmark.wf() && self.oversized_string_controls.wf()
    }

    /// Whether the stream hands out its timing.
    pub closed spec fn reports(&self) -> bool {
        self.benchmark_enabled
    }

    fn with_options(highlighter: Highlighter, live: bool, benchmark_enabled: bool) -> (r:
        StreamingHighlighter)
        ensures
            r.wf(),
            r@ == fresh(highlighter@, live),
            r.reports() == benchmark_enabled,
    {
        let r = StreamingHighlighter {
            highlighter,
            pending: Vec::new(),
            oversized_string_controls: OversizedStringControlFilter::new(),
            pending_from_prompt_echo_remainder: false,
            alternate_screen: false,
            passthrough_single_byte_chunks: live,
            prompt_echo_passthrough: false,
            visible_line_tail: Vec::new(),
            native_sgr: NativeSgrState::new(),
            interactive_overlay: None,
            no_minimal_resets: false,
            benchmark: BenchmarkReport::new(),
            benchmark_enabled,
            disabled_rules: Vec::new(),
        };
        assert(r@.disabled =~= Seq::empty());
        r
    }

    /// A stream that nobody types into.
    pub fn new(highlighter: Highlighter) -> (r: StreamingHighlighter)
        ensures
            r.wf(),
            r@ == fresh(highlighter@, false),
            !r.reports(),
    {
        StreamingHighlighter::with_options(highlighter, false, false)
    }

    /// The stream of a terminal that someone types into.
    pub fn new_interactive(highlighter: Highlighter) -> (r: StreamingHighlighter)
        ensures
            r.wf(),
            r@ == fresh(highlighter@, true),
            !r.reports(),
    {
        StreamingHighlighter::with_options(highlighter, true, false)
    }

    /// A stream that nobody types into and that hands out its timing.
    pub fn new_with_benchmark(highlighter: Highlighter) -> (r: StreamingHighlighter)
        ensures
            r.wf(),
            r@ == fresh(highlighter@, false),
            r.reports(),
    {
        StreamingHighlighter::with_options(highlighter, false, true)
    }

    /// The stream of a terminal that someone types into, which hands out its
    /// timing.
    pub fn new_interactive_with_benchmark(highlighter: Highlighter) -> (r: StreamingHighlighter)
        ensures
            r.wf(),
            r@ == fresh(highlighter@, true),
            r.reports(),
    {
        StreamingHighlighter::with_options(highlighter, true, true)
    }

    /// Timing, where the stream was made to hand it out.
    pub fn benchmark_report(&self) -> (r: Option<&BenchmarkReport>)
        requires
            self.wf(),
        ensures
            match r {
                Some(report) => self.reports() && report.wf() && report@ == self@.timing,
                None => !self.reports(),
            },
    {
        if self.benchmark_enabled {
            Some(&self.benchmark)
        } else {
            None
        }
    }

    /// The rule that took longest so far.
    pub fn slowest_rule(&self) -> (r: Option<&RuleBenchmark>)
        requires
            self.wf(),
        ensures
            match r {
                Some(rule) => self@.timing.len() > 0 && ({
                    let line = self@.timing[slowest_of(
                        self@.timing,
                        self@.timing.len() as int,
                    )].line;
                    rule.description@ == line.description && rule.duration == line.duration
                        && rule.match_count == line.match_count
                }),
                None => self@.timing.len() == 0,
            },
    {
        self.benchmark.slowest_rule()
    }

    /// The first rule that ever failed.
    pub fn first_rule_error(&self) -> (r: Option<RuleErrorReport>)
        requires
            self.wf(),
        ensures
            match r {
                Some(line) => failing_from(self@.timing, 0) is Some && line@
                    == self@.timing[failing_from(self@.timing, 0)->Some_0].line && line.count > 0,
                None => failing_from(self@.timing, 0) is None,
            },
    {
        self.benchmark.first_rule_error()
    }

    /// Goes on with other rules. Rules that failed stay out of use.
    pub fn replace_highlighter(&mut self, highlighter: Highlighter)
        requires
            old(self).wf(),
        ensures
            final(self).wf(),
            final(self).reports() == old(self).reports(),
            final(self)@ == (Stream { highlighter: highlighter@, ..old(self)@ }),
    {
        self.highlighter = highlighter;
    }

    /// Goes on with rules that were loaded anew: timing starts over, and no
    /// rule is out of use.
    pub fn replace_highlighter_generation(&mut self, highlighter: Highlighter)
        requires
            old(self).wf(),
        ensures
            final(self).wf(),
            final(self).reports() == old(self).reports(),
            final(self)@ == (Stream {
                highlighter: highlighter@,
                timing: Seq::empty(),
                disabled: Seq::empty(),
                ..old(self)@
            }),
    {
        self.highlighter = highlighter;
        self.disabled_rules = Vec::new();
        self.benchmark = BenchmarkReport::new();
        assert(self@.disabled =~= Seq::empty());
    }

    /// Whether styles of a live stream are taken back by full resets.
    pub fn no_minimal_resets(&self) -> (r: bool)
        ensures
            r == self@.full_resets,
    {
        self.no_minimal_resets
    }

    /// Says whether styles of a live stream are taken back by full resets.
    pub fn set_no_minimal_resets(&mut self, value: bool)
        requires
            old(self).wf(),
        ensures
            final(self).wf(),
            final(self).reports() == old(self).reports(),
            final(self)@ == (Stream { full_resets: value, ..old(self)@ }),
    {
        self.no_minimal_resets = value;
    }

    fn interactive_reset_mode(&self) -> (r: ResetMode)
        ensures
            r == self@.reset_mode(),
    {
        if self.no_minimal_resets {
            ResetMode::Full
        } else {
            ResetMode::Minimal
        }
    }

    fn reset_interactive_overlay(&mut self, output: &mut Vec<u8>)
        requires
            old(self).wf(),
        ensures
            final(self).wf(),
            final(self).reports() == old(self).reports(),
            final(output)@ == old(output)@ + old(self)@.overlay_end(),
            final(self)@ == old(self)@.bare(),
    {
        if let Some(style) = self.interactive_overlay {
            let end = style_reset_bytes(&style, &self.native_sgr, self.interactive_reset_mode());
            push_all(output, end.as_slice());
        }
        self.interactive_overlay = None;
        assert(output@ =~= old(output)@ + old(self)@.overlay_end());
    }

    fn reset_interactive_overlay_after_prompt_tail(&mut self, output: &mut Vec<u8>)
        requires
            old(self).wf(),
        ensures
            final(self).wf(),
            final(self).reports() == old(self).reports(),
            final(output)@ == old(output)@ + at_prompt(old(self)@).0,
            final(self)@ == at_prompt(old(self)@).1,
    {
        if self.passthrough_single_byte_chunks && looks_like_prompt_tail(
            self.visible_line_tail.as_slice(),
        ) {
            self.reset_interactive_overlay(output);
        } else {
            assert(output@ =~= output@ + Seq::<u8>::empty());
        }
    }

    fn observe_native_sgr_chunk(&mut self, input: &AnsiChunk)
        requires
            old(self).wf(),
            input.wf(),
        ensures
            final(self).wf(),
            final(self).reports() == old(self).reports(),
            final(self)@ == (Stream {
                native: rendition(old(self)@.native, tokens_of(input@)),
                ..old(self)@
            }),
    {
        let ghost all = token_views(input.tokens@);
        let ghost first = self@;
        let mut i: usize = 0;
        assert(all.take(0) =~= Seq::<TokenView>::empty());
        while i < input.tokens.len()
            invariant
                self.wf(),
                self.reports() == old(self).reports(),
                first == old(self)@,
                i <= input.tokens@.len(),
                all == token_views(input.tokens@),
                self@ == (Stream { native: rendition(first.native, all.take(i as int)), ..first }),
            decreases input.tokens@.len() - i,
        {
            assert(all.take(i + 1).drop_last() =~= all.take(i as int));
            assert(all.take(i + 1).last() == input.tokens@[i as int]@);
            if let Token::Ansi(bytes) = &input.tokens[i] {
                self.native_sgr.apply_sequence(bytes.as_slice());
            }
            i = i + 1;
        }
        assert(all.take(i as int) =~= all);
    }

    fn emit_cursor_positioning_passthrough(&mut self, input: &AnsiChunk) -> (r: Vec<u8>)
        requires
            old(self).wf(),
            input.wf(),
        ensures
            final(self).wf(),
            final(self).reports() == old(self).reports(),
            r@ == old(self)@.overlay_end() + input@,
            final(self)@ == old(self)@.after_untouched(input@),
    {
        let mut output: Vec<u8> = Vec::new();
        self.reset_interactive_overlay(&mut output);
        self.observe_native_sgr_chunk(input);
        push_all(&mut output, input.bytes());
        assert(output@ =~= old(self)@.overlay_end() + input@);
        output
    }

    fn emit_prompt_echo_passthrough(&mut self, input: &[u8]) -> (r: Vec<u8>)
        requires
            old(self).wf(),
        ensures
            final(self).wf(),
            final(self).reports() == old(self).reports(),
            r@ == old(self)@.echo_output(input@),
            final(self)@ == old(self)@.after_echo(input@),
    {
        let mut output: Vec<u8> = Vec::new();
        self.reset_interactive_overlay(&mut output);
        let cleaned = neutralize_prompt_echo_source_sgr(
            input,
            self.visible_line_tail.as_slice(),
            self.interactive_reset_mode(),
        );
        push_all(&mut output, cleaned.as_slice());
        assert(output@ =~= old(self)@.echo_output(input@));
        self.observe_native_sgr_chunk(&AnsiChunk::from_slice(output.as_slice()));
        output
    }

    fn observe_shown_byte(&mut self, byte: u8)
        requires
            old(self).wf(),
        ensures
            final(self).wf(),
            final(self).reports() == old(self).reports(),
            final(self)@ == old(self)@.after_shown(byte),
    {
        if byte == 0x0d {
            let submitted = contains_prompt_echo_in_visible_line(self.visible_line_tail.as_slice());
            self.visible_line_tail = Vec::new();
            assert(self.visible_line_tail@ =~= Seq::<u8>::empty());
            if submitted {
                self.prompt_echo_passthrough = false;
            }
        } else if byte == 0x0a {
            self.visible_line_tail = Vec::new();
            assert(self.visible_line_tail@ =~= Seq::<u8>::empty());
            self.prompt_echo_passthrough = false;
        } else {
            self.visible_line_tail.push(byte);
            let len = self.visible_line_tail.len();
            if len > VISIBLE_TAIL_BYTES {
                self.visible_line_tail = copy_range(
                    self.visible_line_tail.as_slice(),
                    len - VISIBLE_TAIL_BYTES,
                    len,
                );
            }
        }
    }

    fn observe_interactive_visible_chunk(&mut self, input: &AnsiChunk)
        requires
            old(self).wf(),
            input.wf(),
        ensures
            final(self).wf(),
            final(self).reports() == old(self).reports(),
            final(self)@ == old(self)@.observed(input@),
    {
        if !self.passthrough_single_byte_chunks {
            return;
        }
        if contains_bracketed_paste_disable_tokens(input.tokens.as_slice()) {
            self.prompt_echo_passthrough = false;
        }
        let places = input.places_cursor();
        let redraws = places && promptless_line_tail_visible(input.visible_bytes());
        if self.prompt_echo_passthrough && places && has_no_printable_visible_bytes(
            input.visible_bytes(),
        ) {
            return;
        }
        let ghost start = self@;
        let ghost shown = visible(input@);
        let mut i: usize = 0;
        assert(shown.take(0) =~= Seq::<u8>::empty());
        while i < input.visible.len()
            invariant
                self.wf(),
                self.reports() == old(self).reports(),
                i <= input.visible@.len(),
                shown == input.visible@,
                self@ == start.after_all_shown(shown.take(i as int)),
            decreases input.visible@.len() - i,
        {
            assert(shown.take(i + 1).drop_last() =~= shown.take(i as int));
            assert(shown.take(i + 1).last() == shown[i as int]);
            self.observe_shown_byte(input.visible[i]);
            i = i + 1;
        }
        assert(shown.take(i as int) =~= shown);
        if redraws || looks_like_prompt_tail(self.visible_line_tail.as_slice())
            || contains_prompt_echo_in_visible_line(self.visible_line_tail.as_slice()) {
            self.prompt_echo_passthrough = true;
        }
    }

    /// Matches the rules on visible text.
    fn match_shown(&mut self, shown: &[u8]) -> (r: Vec<Option<Style>>)
        requires
            old(self).wf(),
        ensures
            final(self).wf(),
            final(self).reports() == old(self).reports(),
            exists|matched: Progress| #[trigger]
                can_become(
                    old(self)@.highlighter.rules,
                    shown@,
                    progress(shown@.len(), old(self)@.timing, old(self)@.disabled),
                    matched,
                ) && r@ == matched.paint.result() && final(self)@ == (Stream {
                    timing: matched.timing,
                    disabled: matched.disabled,
                    ..old(self)@
                }),
    {
        let ghost st = self@;
        let styles = self.highlighter.match_styles_live(
            shown,
            &mut self.benchmark,
            &mut self.disabled_rules,
        );
        proof {
            let before = progress(shown@.len(), st.timing, st.disabled);
            let matched = choose|after: Progress| #[trigger]
                can_become(st.highlighter.rules, shown@, before, after) && styles@
                    == after.paint.result() && self.benchmark@ == after.timing && rule_views(
                    self.disabled_rules@,
                ) == after.disabled;
            assert(can_become(st.highlighter.rules, shown@, before, matched));
            assert(self@ == (Stream {
                timing: matched.timing,
                disabled: matched.disabled,
                ..st
            }));
        }
        styles
    }

    /// Writes tokens with styles.
    fn write_styled(&mut self, tokens: &Vec<Token>, styles: &Vec<Option<Style>>) -> (r: Vec<u8>)
        requires
            old(self).wf(),
            text_of(token_views(tokens@)).len() <= usize::MAX,
        ensures
            final(self).wf(),
            final(self).reports() == old(self).reports(),
            old(self)@.live ==> ({
                let done = pen(old(self)@.native, old(self)@.overlay).after_tokens(
                    Inks {
                        live: true,
                        color: old(self)@.highlighter.color,
                        reset: old(self)@.reset_mode(),
                    },
                    token_views(tokens@),
                    styles@,
                );
                r@ == done.out && final(self)@ == (Stream {
                    native: done.native,
                    overlay: done.active,
                    ..old(self)@
                })
            }),
            !old(self)@.live ==> r@ == highlighted(
                token_views(tokens@),
                styles@,
                old(self)@.highlighter.color,
                ResetMode::Full,
                SgrState::initial(),
            ) && final(self)@ == old(self)@,
    {
        let color_mode = self.highlighter.color_mode();
        if self.passthrough_single_byte_chunks {
            let reset_mode = self.interactive_reset_mode();
            emit_interactive_highlighted(
                tokens.as_slice(),
                styles.as_slice(),
                color_mode,
                reset_mode,
                &mut self.native_sgr,
                &mut self.interactive_overlay,
            )
        } else {
            let mut native = NativeSgrState::new();
            emit_highlighted(
                tokens.as_slice(),
                styles.as_slice(),
                color_mode,
                ResetMode::Full,
                &mut native,
            )
        }
    }

    /// Highlights bytes and appends them to the output.
    fn flush_highlightable(&mut self, input: &Vec<u8>, output: &mut Vec<u8>)
        requires
            old(self).wf(),
        ensures
            final(self).wf(),
            final(self).reports() == old(self).reports(),
            exists|o: Seq<u8>| #[trigger]
                flushes(old(self)@, input@, o, final(self)@) && final(output)@ == old(output)@ + o,
    {
        let ghost st = self@;
        if input.len() == 0 {
            proof {
                let o = Seq::<u8>::empty();
                assert(flushes(st, input@, o, self@));
                assert(output@ =~= output@ + o);
            }
            return;
        }
        let tokens = tokenize_ansi(input.as_slice());
        let shown = visible_bytes(tokens.as_slice());
        proof {
            text_tokens_are_the_visible_text(input@);
        }
        let styles = self.match_shown(shown.as_slice());
        let shown_len: usize = shown.len();
        assert(shown@.len() == shown_len);
        let ghost matched = choose|matched: Progress| #[trigger]
            can_become(
                st.highlighter.rules,
                shown@,
                progress(shown@.len(), st.timing, st.disabled),
                matched,
            ) && styles@ == matched.paint.result() && self@ == (Stream {
                timing: matched.timing,
                disabled: matched.disabled,
                ..st
            });
        assert(st.can_match(input@, matched));
        let part = self.write_styled(&tokens, &styles);
        push_all(output, part.as_slice());
        proof {
            assert((part@, self@) == st.written(input@, matched));
            assert(flushes(st, input@, part@, self@));
        }
    }

    /// Takes a control that ends a stretch of highlighted output.
    fn take_boundary(&mut self, command: Option<bool>, bytes: &[u8], output: &mut Vec<u8>)
        requires
            old(self).wf(),
            command == screen_command(bytes@),
        ensures
            final(self).wf(),
            final(self).reports() == old(self).reports(),
            final(self)@ == after_boundary(old(self)@, bytes@).1,
            final(output)@ == old(output)@ + after_boundary(old(self)@, bytes@).0,
    {
        match command {
            Some(true) => {
                self.native_sgr.apply_sequence(bytes);
                self.alternate_screen = true;
                self.prompt_echo_passthrough = false;
            },
            Some(false) => {
                self.reset_interactive_overlay(output);
                self.native_sgr.apply_sequence(bytes);
                self.alternate_screen = false;
            },
            None => {
                self.reset_interactive_overlay(output);
                self.native_sgr.apply_sequence(bytes);
            },
        }
        push_all(output, bytes);
        assert(output@ =~= old(output)@ + after_boundary(old(self)@, bytes@).0);
    }

    /// Takes one token of a chunk.
    fn take_token(&mut self, token: &Token, held: &mut Vec<u8>, output: &mut Vec<u8>)
        requires
            old(self).wf(),
        ensures
            final(self).wf(),
            final(self).reports() == old(self).reports(),
            token_step(
                Step { st: old(self)@, held: old(held)@, out: old(output)@ },
                token@,
                Step { st: final(self)@, held: final(held)@, out: final(output)@ },
            ),
    {
        let ghost a = Step { st: self@, held: held@, out: output@ };
        let quiet = self.alternate_screen && !self.passthrough_single_byte_chunks;
        match token {
            Token::Ansi(bytes) => {
                let command = alternate_screen_command(bytes.as_slice());
                if command.is_some() || (self.alternate_screen
                    && self.passthrough_single_byte_chunks
                    && is_interactive_layout_boundary_sequence(bytes.as_slice())) {
                    self.flush_highlightable(held, output);
                    let ghost mid = self@;
                    let ghost o = choose|o: Seq<u8>| #[trigger]
                        flushes(a.st, a.held, o, mid) && output@ == a.out + o;
                    *held = Vec::new();
                    assert(held@ =~= Seq::<u8>::empty());
                    self.take_boundary(command, bytes.as_slice(), output);
                    assert(flushes(a.st, a.held, o, mid));
                } else if quiet {
                    self.native_sgr.apply_sequence(bytes.as_slice());
                    push_all(output, bytes.as_slice());
                } else {
                    push_all(held, bytes.as_slice());
                }
            },
            Token::Text(bytes) => {
                if quiet {
                    push_all(output, bytes.as_slice());
                } else {
                    push_all(held, bytes.as_slice());
                }
            },
        }
    }

    fn highlight_streaming_chunk(&mut self, input: &AnsiChunk) -> (r: Vec<u8>)
        requires
            old(self).wf(),
            input.wf(),
        ensures
            final(self).wf(),
            final(self).reports() == old(self).reports(),
            chunk_run(old(self)@, input@, r@, final(self)@),
    {
        proof {
            reveal(chunk_run);
        }
        if self.passthrough_single_byte_chunks && !self.alternate_screen && !input.enables_screen()
            && input.places_cursor() {
            return self.emit_cursor_positioning_passthrough(input);
        }
        let ghost st = self@;
        let ghost all = token_views(input.tokens@);
        let mut output: Vec<u8> = Vec::new();
        let mut held: Vec<u8> = Vec::new();
        let mut i: usize = 0;
        assert(all.take(0) =~= Seq::<TokenView>::empty());
        assert(chunk_start(st) == Step { st: self@, held: held@, out: output@ });
        while i < input.tokens.len()
            invariant
                self.wf(),
                self.reports() == old(self).reports(),
                i <= input.tokens@.len(),
                all == token_views(input.tokens@),
                tokens_run(
                    chunk_start(st),
                    all.take(i as int),
                    Step { st: self@, held: held@, out: output@ },
                ),
            decreases input.tokens@.len() - i,
        {
            let ghost mid = Step { st: self@, held: held@, out: output@ };
            self.take_token(&input.tokens[i], &mut held, &mut output);
            proof {
                let now = Step { st: self@, held: held@, out: output@ };
                assert(all[i as int] == input.tokens@[i as int]@);
                lemma_tokens_run_push(chunk_start(st), all, i as int, mid, now);
            }
            i = i + 1;
        }
        assert(all.take(i as int) =~= all);
        let ghost last = Step { st: self@, held: held@, out: output@ };
        self.flush_highlightable(&held, &mut output);
        proof {
            let o = choose|o: Seq<u8>| #[trigger]
                flushes(last.st, last.held, o, self@) && output@ == last.out + o;
            assert(flushes(last.st, last.held, o, self@));
            assert(chunk_ends(last, output@, self@));
            assert(tokens_run(chunk_start(st), tokens_of(input@), last));
        }
        output
    }

    fn highlight_interactive_output_chunk(&mut self, input: &AnsiChunk) -> (r: Vec<u8>)
        requires
            old(self).wf(),
            input.wf(),
            old(self)@.live,
        ensures
            final(self).wf(),
            final(self).reports() == old(self).reports(),
            output_run(old(self)@, input@, r@, final(self)@),
    {
        if !self.alternate_screen && !input.enables_screen() && input.places_cursor() {
            return self.emit_cursor_positioning_passthrough(input);
        }
        let ghost st = self@;
        let ghost s = input@;
        let bytes = input.bytes();
        let mut output: Vec<u8> = Vec::new();
        let mut from: usize = 0;
        proof {
            lemma_lines_start(st, s);
        }
        while from < bytes.len()
            invariant
                self.wf(),
                self.reports() == old(self).reports(),
                st == old(self)@,
                st.live,
                !st.leaves_alone(s),
                s == bytes@,
                s == input@,
                from <= s.len(),
                lines_lead(st, self@, s, from as int, output@),
            decreases s.len() - from,
        {
            let rest = slice_subrange(bytes, from, bytes.len());
            let ghost now = self@;
            let ghost out = output@;
            match first_terminal_text_line_boundary(rest) {
                Some((at, to)) => {
                    let line = AnsiChunk::from_slice(slice_subrange(rest, 0, at));
                    let part = self.highlight_streaming_chunk(&line);
                    push_all(&mut output, part.as_slice());
                    push_all(&mut output, slice_subrange(rest, at, to));
                    proof {
                        lemma_lines_step(
                            st,
                            now,
                            s,
                            from as int,
                            out,
                            at as int,
                            to as int,
                            part@,
                            self@,
                        );
                    }
                    from = from + to;
                },
                None => {
                    let line = AnsiChunk::from_slice(rest);
                    let part = self.highlight_streaming_chunk(&line);
                    push_all(&mut output, part.as_slice());
                    proof {
                        lemma_lines_last(st, now, s, from as int, out, part@, self@);
                    }
                    return output;
                },
            }
        }
        proof {
            lemma_lines_done(st, self@, s, output@);
        }
        output
    }

    fn highlight_output_chunk(&mut self, input: &AnsiChunk) -> (r: Vec<u8>)
        requires
            old(self).wf(),
            input.wf(),
        ensures
            final(self).wf(),
            final(self).reports() == old(self).reports(),
            output_run(old(self)@, input@, r@, final(self)@),
    {
        if self.passthrough_single_byte_chunks {
            self.highlight_interactive_output_chunk(input)
        } else {
            self.highlight_streaming_chunk(input)
        }
    }

    /// Highlights output and takes note of it.
    fn settle(&mut self, input: &AnsiChunk) -> (r: Vec<u8>)
        requires
            old(self).wf(),
            input.wf(),
        ensures
            final(self).wf(),
            final(self).reports() == old(self).reports(),
            settles(old(self)@, input@, r@, final(self)@),
    {
        let ghost st = self@;
        let mut output = self.highlight_output_chunk(input);
        let ghost o = output@;
        let ghost mid = self@;
        assert(output_run(st, input@, o, mid));
        self.observe_interactive_visible_chunk(input);
        self.reset_interactive_overlay_after_prompt_tail(&mut output);
        output
    }

    /// Keeps the chunk from `split` on for later, and returns what is before.
    fn split_prepared_pending(&mut self, chunk: &AnsiChunk, split: usize, from_echo: bool) -> (r:
        AnsiChunk)
        requires
            old(self).wf(),
            chunk.wf(),
            split <= chunk@.len(),
        ensures
            final(self).wf(),
            final(self).reports() == old(self).reports(),
            r.wf(),
            r@ == chunk@.subrange(0, split as int),
            final(self)@ == keeping(old(self)@, chunk@, split as int, from_echo),
    {
        let bytes = chunk.bytes();
        self.pending = copy_range(bytes, split, bytes.len());
        self.pending_from_prompt_echo_remainder = from_echo && self.pending.len() > 0;
        chunk.prefix(split)
    }

    /// The echo of a command, `prefix_len` bytes, and what follows it.
    fn push_prompt(&mut self, combined: &AnsiChunk, prefix_len: usize) -> (r: Vec<u8>)
        requires
            old(self).wf(),
            combined.wf(),
            prefix_len <= combined@.len(),
        ensures
            final(self).wf(),
            final(self).reports() == old(self).reports(),
            prompt_run(old(self)@, combined@, prefix_len as int, r@, final(self)@),
    {
        let prompt = combined.prefix(prefix_len);
        let remainder = AnsiChunk::new(
            copy_range(combined.bytes(), prefix_len, combined.bytes().len()),
        );
        let mut output = self.emit_prompt_echo_passthrough(prompt.bytes());
        self.observe_interactive_visible_chunk(&AnsiChunk::from_slice(output.as_slice()));
        let split = interactive_split_at_chunk(&remainder, false, self.alternate_screen);
        let processed = self.split_prepared_pending(&remainder, split, true);
        let ghost ready = self@;
        let rest = self.settle(&processed);
        assert(settles(ready, processed@, rest@, self@));
        push_all(&mut output, rest.as_slice());
        output
    }

    /// All of a chunk is the echo of a command.
    fn push_echo(&mut self, combined: &AnsiChunk) -> (r: Vec<u8>)
        requires
            old(self).wf(),
            combined.wf(),
        ensures
            final(self).wf(),
            final(self).reports() == old(self).reports(),
            r@ == old(self)@.echo_output(combined@),
            final(self)@ == old(self)@.after_echo(combined@).observed(r@),
    {
        let output = self.emit_prompt_echo_passthrough(combined.bytes());
        self.observe_interactive_visible_chunk(&AnsiChunk::from_slice(output.as_slice()));
        output
    }

    /// A chunk that is taken line by line.
    fn push_lines(&mut self, combined: &AnsiChunk) -> (r: Vec<u8>)
        requires
            old(self).wf(),
            combined.wf(),
            first_line_end(combined@) is Some,
        ensures
            final(self).wf(),
            final(self).reports() == old(self).reports(),
            pieces_run(old(self)@, combined@, 0, r@, final(self)@),
        decreases combined@.len(), 0int,
    {
        let ghost st = self@;
        let ghost s = combined@;
        let bytes = combined.bytes();
        let mut output: Vec<u8> = Vec::new();
        let mut from: usize = 0;
        proof {
            crate::split::lemma_line_break_from(s, 0);
            assert(s.subrange(0, s.len() as int) =~= s);
            lemma_pieces_start(st, s);
        }
        let len = bytes.len();
        let mut boundary: Option<usize> = find_first_line_boundary(bytes);
        while boundary.is_some()
            invariant
                self.wf(),
                self.reports() == old(self).reports(),
                s == bytes@,
                s == combined@,
                len == s.len(),
                from < s.len(),
                match boundary {
                    Some(to) => first_line_end(s.subrange(from as int, s.len() as int)) == Some(
                        to as int,
                    ) && 0 < to < s.len() - from,
                    None => first_line_end(s.subrange(from as int, s.len() as int)) is None && from
                        > 0,
                },
                pieces_lead(st, self@, s, from as int, output@),
            decreases s.len() - from,
        {
            let to = boundary.unwrap();
            let ghost now = self@;
            let ghost out = output@;
            let ghost rest = s.subrange(from as int, s.len() as int);
            let piece = copy_range(bytes, from, from + to);
            assert(piece@ =~= rest.subrange(0, to as int));
            let part = self.push_line(piece);
            push_all(&mut output, part.as_slice());
            proof {
                lemma_pieces_step(st, now, s, from as int, out, to as int, part@, self@);
            }
            from = from + to;
            boundary = find_first_line_boundary(slice_subrange(bytes, from, bytes.len()));
        }
        let ghost now = self@;
        let ghost out = output@;
        let last = copy_range(bytes, from, bytes.len());
        let part = self.push_line(last);
        push_all(&mut output, part.as_slice());
        proof {
            lemma_pieces_last(st, now, s, from as int, out, part@, self@);
        }
        output
    }

    /// A chunk, or a line, that is taken in one piece.
    fn push_whole(&mut self, combined: &AnsiChunk) -> (r: Vec<u8>)
        requires
            old(self).wf(),
            combined.wf(),
        ensures
            final(self).wf(),
            final(self).reports() == old(self).reports(),
            whole_run(old(self)@, combined@, r@, final(self)@),
    {
        proof {
            reveal(whole_run);
        }
        let ghost now = self@;
        let ghost s = combined@;
        let alternate_screen_chunk = self.alternate_screen || combined.enables_screen();
        let starts = self.passthrough_single_byte_chunks && !alternate_screen_chunk
            && !self.prompt_echo_passthrough && (contains_prompt_echo_before_lf_visible(
            combined.visible_bytes(),
        ) || prompt_echo_has_active_source_sgr(
            combined.bytes(),
            self.visible_line_tail.as_slice(),
        ));
        assert(starts == starts_echo(now, s));
        if starts || (self.passthrough_single_byte_chunks && self.prompt_echo_passthrough) {
            return match prompt_echo_line_prefix_len(
                combined.bytes(),
                self.visible_line_tail.as_slice(),
            ) {
                Some(prefix_len) => self.push_prompt(combined, prefix_len),
                None => {
                    let output = self.push_echo(combined);
                    if starts {
                        self.prompt_echo_passthrough = true;
                    }
                    output
                },
            };
        }
        let split = if self.passthrough_single_byte_chunks {
            interactive_split_at_chunk(
                combined,
                self.prompt_echo_passthrough,
                self.alternate_screen,
            )
        } else {
            streaming_split_at(combined.bytes())
        };
        let processed = self.split_prepared_pending(combined, split, false);
        self.settle(&processed)
    }

    /// Makes ready for a chunk: what was kept before is no longer told apart,
    /// and the alternate screen has no command line.
    fn take(&mut self, combined: &AnsiChunk)
        requires
            old(self).wf(),
            combined.wf(),
        ensures
            final(self).wf(),
            final(self).reports() == old(self).reports(),
            final(self)@ == taking(old(self)@, combined@),
    {
        self.pending_from_prompt_echo_remainder = false;
        if self.alternate_screen || combined.enables_screen() {
            self.prompt_echo_passthrough = false;
        }
    }

    /// A line of a chunk, with what the line before it has kept back in front.
    fn push_line(&mut self, line: Vec<u8>) -> (r: Vec<u8>)
        requires
            old(self).wf(),
        ensures
            final(self).wf(),
            final(self).reports() == old(self).reports(),
            line_run(old(self)@, line@, r@, final(self)@),
        decreases line@.len(), 2int,
    {
        if self.pending.len() == 0 {
            return self.push_combined_chunk(AnsiChunk::new(line));
        }
        let mut given: Vec<u8> = Vec::new();
        std::mem::swap(&mut given, &mut self.pending);
        push_all(&mut given, line.as_slice());
        let mut combined = AnsiChunk::new(given);
        combined.neutralize_oversized_incomplete_escape();
        self.take(&combined);
        self.push_whole(&combined)
    }

    fn push_combined_chunk(&mut self, given: AnsiChunk) -> (r: Vec<u8>)
        requires
            old(self).wf(),
            given.wf(),
        ensures
            final(self).wf(),
            final(self).reports() == old(self).reports(),
            combined_run(old(self)@, given@, r@, final(self)@),
        decreases given@.len(), 1int,
    {
        let mut combined = given;
        proof {
            lemma_oversized_closed_len(given@);
        }
        combined.neutralize_oversized_incomplete_escape();
        let ghost s = combined@;
        let ghost st = self@;
        self.take(&combined);
        let ghost now = self@;
        let alternate_screen_chunk = self.alternate_screen || combined.enables_screen();
        if self.passthrough_single_byte_chunks && !alternate_screen_chunk
            && !combined.places_cursor() && (self.prompt_echo_passthrough
            || chunk_contains_prompt_echo_anywhere(combined.visible_bytes())) {
            if find_first_line_boundary(combined.bytes()).is_some() {
                assert(by_lines(now, s));
                return self.push_lines(&combined);
            }
        }
        assert(!by_lines(now, s));
        self.push_whole(&combined)
    }

    /// Takes output, and returns what of it can be shown.
    pub fn push_chunk(&mut self, chunk: &AnsiChunk) -> (r: Vec<u8>)
        requires
            old(self).wf(),
            chunk.wf(),
        ensures
            final(self).wf(),
            final(self).reports() == old(self).reports(),
            pushes(old(self)@, chunk@, r@, final(self)@),
    {
        let taken = if self.oversized_string_controls.is_discarding() {
            match self.oversized_string_controls.consume_discarded(chunk.bytes()) {
                Some(suffix) => suffix,
                None => {
                    let none: Vec<u8> = Vec::new();
                    assert(none@ =~= Seq::<u8>::empty());
                    return none;
                },
            }
        } else {
            let bytes = chunk.bytes();
            let copy = copy_range(bytes, 0, bytes.len());
            assert(copy@ =~= chunk@);
            copy
        };
        let mut combined: Vec<u8> = Vec::new();
        push_all(&mut combined, self.pending.as_slice());
        push_all(&mut combined, taken.as_slice());
        assert(combined@ =~= old(self)@.pending + taken@);
        self.pending = Vec::new();
        assert(self.pending@ =~= Seq::<u8>::empty());
        let through = self.oversized_string_controls.filter_reassembled(combined.as_slice());
        self.push_combined_chunk(AnsiChunk::new(through))
    }

    /// Takes output, and returns what of it can be shown.
    pub fn push(&mut self, input: &[u8]) -> (r: Vec<u8>)
        requires
            old(self).wf(),
        ensures
            final(self).wf(),
            final(self).reports() == old(self).reports(),
            pushes(old(self)@, input@, r@, final(self)@),
    {
        self.push_chunk(&AnsiChunk::from_slice(input))
    }

    /// Takes text, and returns what of it can be shown. Where a control
    /// sequence cuts a character in two, so that the output is no text,
    /// replacement characters stand for what is cut.
    pub fn push_str(&mut self, input: &str) -> (r: String)
        requires
            old(self).wf(),
        ensures
            final(self).wf(),
            final(self).reports() == old(self).reports(),
            exists|out: Seq<u8>| #[trigger]
                pushes(old(self)@, encode_utf8(input@), out, final(self)@) && r@ == lossy_text(out)
                    && (valid_utf8(out) ==> r@ == decode_utf8(out)),
    {
        let ghost st = self@;
        let output = self.push(input.as_bytes());
        assert(pushes(st, encode_utf8(input@), output@, self@));
        decode_lossy(output.as_slice())
    }

    /// Ends the stream: what was kept comes out, open controls made harmless,
    /// and a style that is on is taken back.
    pub fn finish(&mut self) -> (r: Vec<u8>)
        requires
            old(self).wf(),
        ensures
            final(self).wf(),
            final(self).reports() == old(self).reports(),
            finishes(old(self)@, r@, final(self)@),
    {
        let mut rest: Vec<u8> = copy_range(self.pending.as_slice(), 0, self.pending.len());
        assert(rest@ =~= self@.pending);
        self.pending = Vec::new();
        assert(self.pending@ =~= Seq::<u8>::empty());
        self.oversized_string_controls.drop_unfinished_string(&mut rest);
        neutralize_incomplete_escape_at_eof(&mut rest);
        assert(rest@ == left_over(old(self)@));
        proof {
            lemma_cut_char_in_range(rest@);
        }
        let cut: usize = match incomplete_utf8_start(rest.as_slice()) {
            Some(at) => at,
            None => rest.len(),
        };
        let body = AnsiChunk::new(copy_range(rest.as_slice(), 0, cut));
        let ghost start = self@;
        let mut output = self.highlight_output_chunk(&body);
        let ghost o = output@;
        let ghost mid = self@;
        assert(output_run(start, body@, o, mid));
        push_all(&mut output, slice_subrange(rest.as_slice(), cut, rest.len()));
        assert(output@ == o + rest@.subrange(cut as int, rest@.len() as int));
        assert(mid.live == old(self)@.live) by {
            output_keeps_settings(start, body@, o, mid);
        }
        if self.passthrough_single_byte_chunks {
            self.reset_interactive_overlay(&mut output);
        }
        proof {
            let st = old(self)@;
            let rest_bytes = left_over(st);
            assert(cut == or_all(rest_bytes, cut_char_start(rest_bytes)));
            assert(start == Stream {
                pending: Seq::empty(),
                filter: OversizedStringControlMode::Normal,
                ..st
            });
            assert(output_run(start, rest_bytes.subrange(0, cut as int), o, mid));
        }
        output
    }

    /// What is kept of the echo of typed text and can be shown.
    pub fn buffered_echo(&self) -> (r: &[u8])
        requires
            self.wf(),
        ensures
            r@ == kept_echo(self@),
    {
        if !self.passthrough_single_byte_chunks {
            let none = slice_subrange(self.pending.as_slice(), 0, 0);
            assert(none@ =~= Seq::<u8>::empty());
            return none;
        }
        let flush_len = flushable_pending_len(self.pending.as_slice());
        slice_subrange(self.pending.as_slice(), 0, flush_len)
    }

    /// Shows the echo of typed text that was kept because it may go on. An
    /// open control stays kept.
    pub fn flush_buffered_echo(&mut self) -> (r: Vec<u8>)
        requires
            old(self).wf(),
        ensures
            final(self).wf(),
            final(self).reports() == old(self).reports(),
            shows_echo(old(self)@, r@, final(self)@),
    {
        if !self.passthrough_single_byte_chunks {
            let none: Vec<u8> = Vec::new();
            assert(none@ =~= Seq::<u8>::empty());
            return none;
        }
        let flush_len = flushable_pending_len(self.pending.as_slice());
        if flush_len == 0 {
            let none: Vec<u8> = Vec::new();
            assert(none@ =~= Seq::<u8>::empty());
            return none;
        }
        let len = self.pending.len();
        let echo = AnsiChunk::new(copy_range(self.pending.as_slice(), 0, flush_len));
        self.pending = copy_range(self.pending.as_slice(), flush_len, len);
        self.settle(&echo)
    }

    /// Whether what is kept completes a command line that was redrawn.
    pub fn buffered_echo_completes_prompt_line(&self) -> (r: bool)
        requires
            self.wf(),
        ensures
            r == (kept_echo(self@).len() > 0 && self@.from_echo && prompt_echo(self@.tail)),
    {
        self.buffered_echo().len() > 0 && self.pending_from_prompt_echo_remainder
            && contains_prompt_echo_in_visible_line(self.visible_line_tail.as_slice())
    }
}

} // verus!
