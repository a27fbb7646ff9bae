//! What a stream of output becomes: the state of a stream and the steps it
//! takes.
//!
//! All steps but one are functions of the state and the bytes. The exception
//! is matching: whether a search fails depends on the machine, and how long a
//! rule takes on the clock, so steps that match are relations between the
//! state before, the output and the state behind.

use vstd::prelude::*;

use crate::benchmark::EntryView;
use crate::config::RuleView;
use crate::controls::{
    disables_paste, enables_screen, layout_sequence, places_cursor, screen_command, tokens_of,
    visible, TokenView,
};
use crate::emit::{ended, highlighted, pen, Inks};
use crate::escapes::{flushable_len, open_control, or_all};
use crate::highlight::{can_become, progress, HighlighterView, Progress};
use crate::prompt_echo::{
    echo_in_lines, echo_len, echo_on_first_line, no_ink_shown, prompt_echo, prompt_tail,
    promptless_tail,
};
use crate::prompt_sgr::{sgr_plan, without_prompt_colors, ResetMode};
use crate::sanitize::{closed_at_eof, lemma_oversized_closed_len, oversized_closed};
use crate::sgr::{after_sequence, SgrState};
use crate::split::{first_line_end, lemma_line_break_from, line_break_from, stream_split};
use crate::string_filter::{discard_run, filtered, tail, OversizedStringControlMode};
use crate::style::Style;
use crate::utf8::cut_char_start;

verus! {

/// How much of the current line is remembered.
pub const VISIBLE_TAIL_BYTES: usize = 512;

/// The state of a stream.
pub struct Stream {
    pub highlighter: HighlighterView,
    /// Bytes that wait for what follows them.
    pub pending: Seq<u8>,
    /// What is known of a control string that is open.
    pub filter: OversizedStringControlMode,
    /// Whether `pending` was split off a redrawn command line.
    pub from_echo: bool,
    /// Whether the alternate screen is on.
    pub alternate: bool,
    /// Whether someone types at the other end.
    pub live: bool,
    /// Whether output is taken for the echo of a command that is being typed.
    pub echoing: bool,
    /// The end of the current line, without controls.
    pub tail: Seq<u8>,
    /// The rendition that the program itself has set.
    pub native: SgrState,
    /// The style that is on.
    pub overlay: Option<Style>,
    pub full_resets: bool,
    pub timing: Seq<EntryView>,
    pub disabled: Seq<RuleView>,
}

/// The rendition behind the controls among `tokens`.
pub open spec fn rendition(native: SgrState, tokens: Seq<TokenView>) -> SgrState
    decreases tokens.len(),
{
    if tokens.len() == 0 {
        native
    } else {
        let before = rendition(native, tokens.drop_last());
        match tokens.last() {
            TokenView::Ansi(bytes) => after_sequence(before, bytes),
            TokenView::Text(_) => before,
        }
    }
}

/// The last bytes of a line.
pub open spec fn newest(line: Seq<u8>) -> Seq<u8> {
    if line.len() > VISIBLE_TAIL_BYTES {
        line.subrange(line.len() - VISIBLE_TAIL_BYTES, line.len() as int)
    } else {
        line
    }
}

/// Where a live stream is cut: in front of an open control, or, where output
/// is highlighted, in front of a word that may go on.
pub open spec fn live_split(s: Seq<u8>, echoing: bool, alternate: bool) -> int {
    if alternate || enables_screen(tokens_of(s)) || places_cursor(tokens_of(s)) || echoing {
        or_all(s, open_control(s))
    } else {
        stream_split(s)
    }
}

impl Stream {
    pub open spec fn reset_mode(self) -> ResetMode {
        if self.full_resets {
            ResetMode::Full
        } else {
            ResetMode::Minimal
        }
    }

    /// The bytes that take the style back that is on.
    pub open spec fn overlay_end(self) -> Seq<u8> {
        ended(self.overlay, self.native, self.reset_mode())
    }

    /// Without a style on.
    pub open spec fn bare(self) -> Stream {
        Stream { overlay: None, ..self }
    }

    /// Output that places the cursor on the main screen is not touched.
    pub open spec fn leaves_alone(self, s: Seq<u8>) -> bool {
        !self.alternate && !enables_screen(tokens_of(s)) && places_cursor(tokens_of(s))
    }

    pub open spec fn after_untouched(self, s: Seq<u8>) -> Stream {
        Stream { native: rendition(self.native, tokens_of(s)), ..self.bare() }
    }

    /// The echo of a command is let through without the colors of its prompt.
    pub open spec fn echo_output(self, s: Seq<u8>) -> Seq<u8> {
        self.overlay_end() + without_prompt_colors(s, self.tail, self.reset_mode())
    }

    pub open spec fn after_echo(self, s: Seq<u8>) -> Stream {
        Stream { native: rendition(self.native, tokens_of(self.echo_output(s))), ..self.bare() }
    }

    /// Behind one visible byte.
    pub open spec fn after_shown(self, b: u8) -> Stream {
        if b == 0x0d {
            Stream {
                tail: Seq::empty(),
                echoing: self.echoing && !prompt_echo(self.tail),
                ..self
            }
        } else if b == 0x0a {
            Stream { tail: Seq::empty(), echoing: false, ..self }
        } else {
            Stream { tail: newest(self.tail.push(b)), ..self }
        }
    }

    /// Behind visible bytes.
    pub open spec fn after_all_shown(self, text: Seq<u8>) -> Stream
        decreases text.len(),
    {
        if text.len() == 0 {
            self
        } else {
            self.after_all_shown(text.drop_last()).after_shown(text.last())
        }
    }

    /// Behind output of which a live stream takes note.
    pub open spec fn observed(self, s: Seq<u8>) -> Stream {
        let tokens = tokens_of(s);
        let shown = visible(s);
        let start = if disables_paste(tokens) {
            Stream { echoing: false, ..self }
        } else {
            self
        };
        if !self.live {
            self
        } else if start.echoing && places_cursor(tokens) && no_ink_shown(shown) {
            start
        } else {
            let end = start.after_all_shown(shown);
            if (places_cursor(tokens) && promptless_tail(shown)) || prompt_tail(end.tail)
                || prompt_echo(end.tail) {
                Stream { echoing: true, ..end }
            } else {
                end
            }
        }
    }

    /// Writing the bytes `s` with styles, given what matching them came to: the
    /// output and the state behind it.
    pub open spec fn written(self, s: Seq<u8>, matched: Progress) -> (Seq<u8>, Stream) {
        let styles = matched.paint.result();
        let color = self.highlighter.color;
        if self.live {
            let done = pen(self.native, self.overlay).after_tokens(
                Inks { live: true, color, reset: self.reset_mode() },
                tokens_of(s),
                styles,
            );
            (
                done.out,
                Stream {
                    native: done.native,
                    overlay: done.active,
                    timing: matched.timing,
                    disabled: matched.disabled,
                    ..self
                },
            )
        } else {
            (
                highlighted(tokens_of(s), styles, color, ResetMode::Full, SgrState::initial()),
                Stream { timing: matched.timing, disabled: matched.disabled, ..self },
            )
        }
    }

    /// What matching `s` can come to.
    pub open spec fn can_match(self, s: Seq<u8>, matched: Progress) -> bool {
        can_become(
            self.highlighter.rules,
            visible(s),
            progress(visible(s).len(), self.timing, self.disabled),
            matched,
        )
    }
}

/// Highlighting the bytes `s` can give `out`.
pub open spec fn flushes(st: Stream, s: Seq<u8>, out: Seq<u8>, end: Stream) -> bool {
    if s.len() == 0 {
        out == Seq::<u8>::empty() && end == st
    } else {
        exists|matched: Progress| #[trigger] st.can_match(s, matched) && (out, end) == st.written(s, matched)
    }
}

/// A stream within a chunk: bytes that are yet to be highlighted, and output so
/// far.
pub struct Step {
    pub st: Stream,
    pub held: Seq<u8>,
    pub out: Seq<u8>,
}

/// What becomes of a control that ends a stretch of highlighted output.
pub open spec fn after_boundary(st: Stream, bytes: Seq<u8>) -> (Seq<u8>, Stream) {
    let native = after_sequence(st.native, bytes);
    match screen_command(bytes) {
        Some(true) => (bytes, Stream { native, alternate: true, echoing: false, ..st }),
        Some(false) => (st.overlay_end() + bytes, Stream { native, alternate: false, ..st.bare() }),
        None => (st.overlay_end() + bytes, Stream { native, ..st.bare() }),
    }
}

/// One token can lead from `a` to `b`.
pub open spec fn token_step(a: Step, token: TokenView, b: Step) -> bool {
    match token {
        TokenView::Ansi(bytes) => {
            if screen_command(bytes) is Some || (a.st.alternate && a.st.live && layout_sequence(
                bytes,
            )) {
                exists|o: Seq<u8>, mid: Stream| #[trigger]
                    flushes(a.st, a.held, o, mid) && b == (Step {
                        st: after_boundary(mid, bytes).1,
                        held: Seq::empty(),
                        out: a.out + o + after_boundary(mid, bytes).0,
                    })
            } else if a.st.alternate && !a.st.live {
                b == Step {
                    st: Stream { native: after_sequence(a.st.native, bytes), ..a.st },
                    out: a.out + bytes,
                    ..a
                }
            } else {
                b == Step { held: a.held + bytes, ..a }
            }
        },
        TokenView::Text(bytes) => {
            if a.st.alternate && !a.st.live {
                b == Step { out: a.out + bytes, ..a }
            } else {
                b == Step { held: a.held + bytes, ..a }
            }
        },
    }
}

/// Tokens can lead from `a` to `b`.
pub open spec fn tokens_run(a: Step, tokens: Seq<TokenView>, b: Step) -> bool
    decreases tokens.len(),
{
    if tokens.len() == 0 {
        b == a
    } else {
        exists|mid: Step|
            tokens_run(a, tokens.drop_last(), mid) && #[trigger] token_step(mid, tokens.last(), b)
    }
}

/// A stream at the start of a chunk.
pub open spec fn chunk_start(st: Stream) -> Step {
    Step { st, held: Seq::empty(), out: Seq::empty() }
}

/// An output and the state behind it: always.
pub open spec fn gives(out: Seq<u8>, end: Stream) -> bool {
    true
}

/// Behind its last token, a chunk can give `out`.
pub open spec fn chunk_ends(a: Step, out: Seq<u8>, end: Stream) -> bool {
    exists|o: Seq<u8>| #[trigger] flushes(a.st, a.held, o, end) && out == a.out + o
}

/// A chunk can give `out`.
#[verifier::opaque]
pub open spec fn chunk_run(st: Stream, s: Seq<u8>, out: Seq<u8>, end: Stream) -> bool {
    if st.live && st.leaves_alone(s) {
        out == st.overlay_end() + s && end == st.after_untouched(s)
    } else {
        exists|last: Step| #[trigger]
            tokens_run(chunk_start(st), tokens_of(s), last) && chunk_ends(last, out, end)
    }
}

pub open spec fn begins_with(out: Seq<u8>, part: Seq<u8>) -> bool {
    part.len() <= out.len() && out.subrange(0, part.len() as int) == part
}

/// What `out` has behind `part`.
pub open spec fn behind(out: Seq<u8>, part: Seq<u8>) -> Seq<u8> {
    out.subrange(part.len() as int, out.len() as int)
}

/// The lines of `s` from `from` on can give `out`. Line breaks are let through
/// as they are.
pub open spec fn lines_run(st: Stream, s: Seq<u8>, from: int, out: Seq<u8>, end: Stream) -> bool
    decreases s.len() - from,
{
    if !(0 <= from < s.len()) {
        out == Seq::<u8>::empty() && end == st
    } else {
        let rest = s.subrange(from, s.len() as int);
        proof {
            lemma_line_break_from(rest, 0);
        }
        match line_break_from(rest, 0) {
            Some((at, to)) => exists|o: Seq<u8>, mid: Stream| #[trigger]
                chunk_run(st, rest.subrange(0, at), o, mid) && begins_with(
                    out,
                    o + rest.subrange(at, to),
                ) && lines_run(
                    mid,
                    s,
                    from + to,
                    behind(out, o + rest.subrange(at, to)),
                    end,
                ),
            None => chunk_run(st, rest, out, end),
        }
    }
}

/// Output that is to be highlighted can give `out`.
pub open spec fn output_run(st: Stream, s: Seq<u8>, out: Seq<u8>, end: Stream) -> bool {
    if !st.live {
        chunk_run(st, s, out, end)
    } else if st.leaves_alone(s) {
        out == st.overlay_end() + s && end == st.after_untouched(s)
    } else {
        lines_run(st, s, 0, out, end)
    }
}

/// A live stream that shows a prompt has no style on.
pub open spec fn at_prompt(st: Stream) -> (Seq<u8>, Stream) {
    if st.live && prompt_tail(st.tail) {
        (st.overlay_end(), st.bare())
    } else {
        (Seq::empty(), st)
    }
}

/// Output that is highlighted and taken note of can give `out`.
pub open spec fn settles(st: Stream, s: Seq<u8>, out: Seq<u8>, end: Stream) -> bool {
    exists|o: Seq<u8>, mid: Stream| #[trigger]
        output_run(st, s, o, mid) && out == o + at_prompt(mid.observed(s)).0 && end == at_prompt(
            mid.observed(s),
        ).1
}

/// The state that keeps `s` from `split` on for later.
pub open spec fn keeping(st: Stream, s: Seq<u8>, split: int, from_echo: bool) -> Stream {
    let pending = s.subrange(split, s.len() as int);
    Stream { pending, from_echo: from_echo && pending.len() > 0, ..st }
}

/// The echo of a command, `n` bytes, with output behind it can give `out`.
pub open spec fn prompt_run(st: Stream, s: Seq<u8>, n: int, out: Seq<u8>, end: Stream) -> bool {
    let prompt = s.subrange(0, n);
    let rest = s.subrange(n, s.len() as int);
    let shown = st.echo_output(prompt);
    let mid = st.after_echo(prompt).observed(shown);
    let split = live_split(rest, false, mid.alternate);
    exists|o: Seq<u8>| #[trigger]
        settles(keeping(mid, rest, split, true), rest.subrange(0, split), o, end) && out == shown
            + o
}

/// The stream as it takes a chunk: what was kept before is no longer told
/// apart, and the alternate screen has no command line.
pub open spec fn taking(st: Stream, s: Seq<u8>) -> Stream {
    Stream {
        from_echo: false,
        echoing: st.echoing && !(st.alternate || enables_screen(tokens_of(s))),
        ..st
    }
}

/// Whether a chunk is taken line by line.
pub open spec fn by_lines(st: Stream, s: Seq<u8>) -> bool {
    &&& st.live
    &&& !st.alternate
    &&& !enables_screen(tokens_of(s))
    &&& !places_cursor(tokens_of(s))
    &&& st.echoing || echo_in_lines(visible(s), 0)
    &&& first_line_end(s) is Some
}

/// Whether a chunk begins with the echo of a command.
pub open spec fn starts_echo(st: Stream, s: Seq<u8>) -> bool {
    &&& st.live
    &&& !st.alternate
    &&& !enables_screen(tokens_of(s))
    &&& !st.echoing
    &&& echo_on_first_line(visible(s)) || sgr_plan(s, st.tail).removed.len() > 0
}

/// A chunk that is not taken line by line can give `out`.
#[verifier::opaque]
pub open spec fn whole_run(now: Stream, s: Seq<u8>, out: Seq<u8>, end: Stream) -> bool {
    if starts_echo(now, s) || (now.live && now.echoing) {
        match echo_len(s, now.tail) {
            Some(n) => prompt_run(now, s, n, out, end),
            None => out == now.echo_output(s) && end == ({
                let seen = now.after_echo(s).observed(out);
                if now.echoing {
                    seen
                } else {
                    Stream { echoing: true, ..seen }
                }
            }),
        }
    } else {
        let split = if now.live {
            live_split(s, now.echoing, now.alternate)
        } else {
            stream_split(s)
        };
        settles(keeping(now, s, split, false), s.subrange(0, split), out, end)
    }
}

/// A chunk can give `out`.
pub open spec fn combined_run(st: Stream, given: Seq<u8>, out: Seq<u8>, end: Stream) -> bool
    decreases given.len(), 1int, 0int,
{
    let s = oversized_closed(given);
    let now = taking(st, s);
    proof {
        lemma_oversized_closed_len(given);
    }
    if by_lines(now, s) {
        pieces_run(now, s, 0, out, end)
    } else {
        whole_run(now, s, out, end)
    }
}

/// A line with what the line before it has kept back in front, which is taken
/// in one piece, can give `out`.
pub open spec fn kept_run(st: Stream, line: Seq<u8>, out: Seq<u8>, end: Stream) -> bool {
    let s = oversized_closed(st.pending + line);
    whole_run(taking(Stream { pending: Seq::empty(), ..st }, s), s, out, end)
}

/// The lines of a chunk from `from` on, each taken as a chunk of its own, can
/// give `out`.
pub open spec fn pieces_run(st: Stream, s: Seq<u8>, from: int, out: Seq<u8>, end: Stream) -> bool
    decreases s.len(), 0int, s.len() - from,
{
    if !(0 <= from < s.len()) {
        false
    } else {
        let rest = s.subrange(from, s.len() as int);
        proof {
            lemma_line_break_from(rest, 0);
        }
        match first_line_end(rest) {
            Some(to) => exists|o: Seq<u8>, mid: Stream| #[trigger]
                gives(o, mid) && (if st.pending.len() == 0 {
                    combined_run(st, rest.subrange(0, to), o, mid)
                } else {
                    kept_run(st, rest.subrange(0, to), o, mid)
                }) && begins_with(out, o) && pieces_run(
                    mid,
                    s,
                    from + to,
                    behind(out, o),
                    end,
                ),
            None => from > 0 && if st.pending.len() == 0 {
                combined_run(st, rest, out, end)
            } else {
                kept_run(st, rest, out, end)
            },
        }
    }
}

/// A line of a chunk can give `out`.
pub open spec fn line_run(st: Stream, line: Seq<u8>, out: Seq<u8>, end: Stream) -> bool {
    if st.pending.len() == 0 {
        combined_run(st, line, out, end)
    } else {
        kept_run(st, line, out, end)
    }
}

/// What comes to a stream: while an oversized string is dropped, what is
/// behind it.
pub open spec fn incoming(filter: OversizedStringControlMode, input: Seq<u8>) -> (
    Option<Seq<u8>>,
    OversizedStringControlMode,
) {
    match filter {
        OversizedStringControlMode::Discarding(p) => match discard_run(p, input, 0).1 {
            None => (None, OversizedStringControlMode::Discarding(discard_run(p, input, 0).0)),
            Some((end, replay)) => (
                Some(replay + tail(input, end)),
                OversizedStringControlMode::Normal,
            ),
        },
        _ => (Some(input), filter),
    }
}

/// Pushing `input` can give `out`.
pub open spec fn pushes(st: Stream, input: Seq<u8>, out: Seq<u8>, end: Stream) -> bool {
    let (taken, filter) = incoming(st.filter, input);
    match taken {
        None => out == Seq::<u8>::empty() && end == (Stream { filter, ..st }),
        Some(bytes) => {
            let (through, mode) = filtered(filter, st.pending + bytes);
            combined_run(Stream { pending: Seq::empty(), filter: mode, ..st }, through, out, end)
        },
    }
}

/// What is left of the kept bytes at the end of the stream: an open control
/// string is dropped, another open control is made harmless.
pub open spec fn left_over(st: Stream) -> Seq<u8> {
    closed_at_eof(
        if st.filter matches OversizedStringControlMode::Tracking(t) && t.aligned(st.pending)
            is Some {
            Seq::empty()
        } else {
            st.pending
        },
    )
}

/// The end of the stream can give `out`.
pub open spec fn finishes(st: Stream, out: Seq<u8>, end: Stream) -> bool {
    let rest = left_over(st);
    let cut = or_all(rest, cut_char_start(rest));
    let start = Stream {
        pending: Seq::empty(),
        filter: OversizedStringControlMode::Normal,
        ..st
    };
    exists|o: Seq<u8>, mid: Stream| #[trigger]
        output_run(start, rest.subrange(0, cut), o, mid) && ({
            let body = o + rest.subrange(cut, rest.len() as int);
            if st.live {
                out == body + mid.overlay_end() && end == mid.bare()
            } else {
                out == body && end == mid
            }
        })
}

/// What is kept of the echo of typed text and can be shown.
pub open spec fn kept_echo(st: Stream) -> Seq<u8> {
    if st.live {
        st.pending.subrange(0, flushable_len(st.pending))
    } else {
        Seq::empty()
    }
}

/// Showing the kept echo of typed text can give `out`.
pub open spec fn shows_echo(st: Stream, out: Seq<u8>, end: Stream) -> bool {
    let echo = kept_echo(st);
    if echo.len() == 0 {
        out == Seq::<u8>::empty() && end == st
    } else {
        settles(
            Stream {
                pending: st.pending.subrange(flushable_len(st.pending), st.pending.len() as int),
                ..st
            },
            echo,
            out,
            end,
        )
    }
}

/// One more token.
pub proof fn lemma_tokens_run_push(a: Step, tokens: Seq<TokenView>, i: int, mid: Step, b: Step)
    requires
        0 <= i < tokens.len(),
        tokens_run(a, tokens.take(i), mid),
        token_step(mid, tokens[i], b),
    ensures
        tokens_run(a, tokens.take(i + 1), b),
{
    assert(tokens.take(i + 1).drop_last() =~= tokens.take(i));
    assert(tokens.take(i + 1).last() == tokens[i]);
    assert(token_step(mid, tokens.take(i + 1).last(), b));
}

/// Whatever the lines of `s` from `from` on give in the state `now`, all of its
/// lines give in the state `st` with `out` before it.
#[verifier::opaque]
pub open spec fn lines_lead(st: Stream, now: Stream, s: Seq<u8>, from: int, out: Seq<u8>) -> bool {
    forall|more: Seq<u8>, end: Stream| #[trigger]
        lines_run(now, s, from, more, end) ==> lines_run(st, s, 0, out + more, end)
}

pub proof fn lemma_lines_start(st: Stream, s: Seq<u8>)
    ensures
        lines_lead(st, st, s, 0, Seq::empty()),
{
    reveal(lines_lead);
    assert forall|more: Seq<u8>, end: Stream| #[trigger] lines_run(st, s, 0, more, end) implies
        lines_run(st, s, 0, Seq::<u8>::empty() + more, end) by {
        assert(Seq::<u8>::empty() + more =~= more);
    }
}

proof fn lemma_lines_cons(
    now: Stream,
    s: Seq<u8>,
    from: int,
    at: int,
    to: int,
    part: Seq<u8>,
    mid: Stream,
    more: Seq<u8>,
    end: Stream,
)
    requires
        0 <= from < s.len(),
        line_break_from(s.subrange(from, s.len() as int), 0) == Some((at, to)),
        chunk_run(now, s.subrange(from, s.len() as int).subrange(0, at), part, mid),
        lines_run(mid, s, from + to, more, end),
    ensures
        lines_run(
            now,
            s,
            from,
            part + s.subrange(from, s.len() as int).subrange(at, to) + more,
            end,
        ),
{
    let rest = s.subrange(from, s.len() as int);
    lemma_line_break_from(rest, 0);
    let head = part + rest.subrange(at, to);
    let all = head + more;
    assert(all.subrange(0, head.len() as int) =~= head);
    assert(behind(all, head) =~= more);
}

proof fn lemma_lines_lead(
    st: Stream,
    now: Stream,
    s: Seq<u8>,
    from: int,
    out: Seq<u8>,
    more: Seq<u8>,
    end: Stream,
)
    requires
        lines_lead(st, now, s, from, out),
        lines_run(now, s, from, more, end),
    ensures
        lines_run(st, s, 0, out + more, end),
{
    reveal(lines_lead);
}

pub proof fn lemma_lines_step(
    st: Stream,
    now: Stream,
    s: Seq<u8>,
    from: int,
    out: Seq<u8>,
    at: int,
    to: int,
    part: Seq<u8>,
    mid: Stream,
)
    requires
        0 <= from < s.len(),
        lines_lead(st, now, s, from, out),
        line_break_from(s.subrange(from, s.len() as int), 0) == Some((at, to)),
        chunk_run(now, s.subrange(from, s.len() as int).subrange(0, at), part, mid),
    ensures
        lines_lead(
            st,
            mid,
            s,
            from + to,
            out + part + s.subrange(from, s.len() as int).subrange(at, to),
        ),
{
    let breaks = s.subrange(from, s.len() as int).subrange(at, to);
    let after = out + part + breaks;
    assert forall|more: Seq<u8>, end: Stream| #[trigger]
        lines_run(mid, s, from + to, more, end) implies lines_run(st, s, 0, after + more, end) by {
        lemma_lines_cons(now, s, from, at, to, part, mid, more, end);
        lemma_lines_lead(st, now, s, from, out, part + breaks + more, end);
        assert(out + (part + breaks + more) =~= after + more);
    }
    reveal(lines_lead);
}

pub proof fn lemma_lines_last(
    st: Stream,
    now: Stream,
    s: Seq<u8>,
    from: int,
    out: Seq<u8>,
    part: Seq<u8>,
    end: Stream,
)
    requires
        0 <= from < s.len(),
        lines_lead(st, now, s, from, out),
        line_break_from(s.subrange(from, s.len() as int), 0) is None,
        chunk_run(now, s.subrange(from, s.len() as int), part, end),
    ensures
        lines_run(st, s, 0, out + part, end),
{
    reveal(lines_lead);
    assert(lines_run(now, s, from, part, end));
}

pub proof fn lemma_lines_done(st: Stream, now: Stream, s: Seq<u8>, out: Seq<u8>)
    requires
        lines_lead(st, now, s, s.len() as int, out),
    ensures
        lines_run(st, s, 0, out, now),
{
    reveal(lines_lead);
    let none = Seq::<u8>::empty();
    assert(lines_run(now, s, s.len() as int, none, now));
    assert(out + none =~= out);
}

/// Whatever the lines of `s` from `from` on give in the state `now`, taken as
/// chunks, all of its lines give in the state `st` with `out` before it.
#[verifier::opaque]
pub open spec fn pieces_lead(st: Stream, now: Stream, s: Seq<u8>, from: int, out: Seq<u8>) -> bool {
    forall|more: Seq<u8>, end: Stream| #[trigger]
        pieces_run(now, s, from, more, end) ==> pieces_run(st, s, 0, out + more, end)
}

pub proof fn lemma_pieces_start(st: Stream, s: Seq<u8>)
    ensures
        pieces_lead(st, st, s, 0, Seq::empty()),
{
    reveal(pieces_lead);
    assert forall|more: Seq<u8>, end: Stream| #[trigger] pieces_run(st, s, 0, more, end) implies
        pieces_run(st, s, 0, Seq::<u8>::empty() + more, end) by {
        assert(Seq::<u8>::empty() + more =~= more);
    }
}

proof fn lemma_pieces_cons(
    now: Stream,
    s: Seq<u8>,
    from: int,
    to: int,
    part: Seq<u8>,
    mid: Stream,
    more: Seq<u8>,
    end: Stream,
)
    requires
        0 <= from < s.len(),
        first_line_end(s.subrange(from, s.len() as int)) == Some(to),
        line_run(now, s.subrange(from, s.len() as int).subrange(0, to), part, mid),
        pieces_run(mid, s, from + to, more, end),
    ensures
        pieces_run(now, s, from, part + more, end),
{
    let all = part + more;
    assert(all.subrange(0, part.len() as int) =~= part);
    assert(behind(all, part) =~= more);
    assert(gives(part, mid));
}

proof fn lemma_pieces_lead(
    st: Stream,
    now: Stream,
    s: Seq<u8>,
    from: int,
    out: Seq<u8>,
    more: Seq<u8>,
    end: Stream,
)
    requires
        pieces_lead(st, now, s, from, out),
        pieces_run(now, s, from, more, end),
    ensures
        pieces_run(st, s, 0, out + more, end),
{
    reveal(pieces_lead);
}

pub proof fn lemma_pieces_step(
    st: Stream,
    now: Stream,
    s: Seq<u8>,
    from: int,
    out: Seq<u8>,
    to: int,
    part: Seq<u8>,
    mid: Stream,
)
    requires
        0 <= from < s.len(),
        pieces_lead(st, now, s, from, out),
        first_line_end(s.subrange(from, s.len() as int)) == Some(to),
        line_run(now, s.subrange(from, s.len() as int).subrange(0, to), part, mid),
    ensures
        pieces_lead(st, mid, s, from + to, out + part),
{
    assert forall|more: Seq<u8>, end: Stream| #[trigger]
        pieces_run(mid, s, from + to, more, end) implies pieces_run(
        st,
        s,
        0,
        out + part + more,
        end,
    ) by {
        lemma_pieces_cons(now, s, from, to, part, mid, more, end);
        lemma_pieces_lead(st, now, s, from, out, part + more, end);
        assert(out + (part + more) =~= out + part + more);
    }
    reveal(pieces_lead);
}

pub proof fn lemma_pieces_last(
    st: Stream,
    now: Stream,
    s: Seq<u8>,
    from: int,
    out: Seq<u8>,
    part: Seq<u8>,
    end: Stream,
)
    requires
        0 < from < s.len(),
        pieces_lead(st, now, s, from, out),
        first_line_end(s.subrange(from, s.len() as int)) is None,
        line_run(now, s.subrange(from, s.len() as int), part, end),
    ensures
        pieces_run(st, s, 0, out + part, end),
{
    reveal(pieces_lead);
    assert(pieces_run(now, s, from, part, end));
}

/// The two states have the same rules, are of the same kind and are reset in
/// the same way.
pub open spec fn same_settings(a: Stream, b: Stream) -> bool {
    a.highlighter == b.highlighter && a.live == b.live && a.full_resets == b.full_resets
}

proof fn lemma_flush_settings(st: Stream, s: Seq<u8>, out: Seq<u8>, end: Stream)
    requires
        flushes(st, s, out, end),
    ensures
        same_settings(st, end),
{
}

proof fn lemma_tokens_settings(a: Step, tokens: Seq<TokenView>, b: Step)
    requires
        tokens_run(a, tokens, b),
    ensures
        same_settings(a.st, b.st),
    decreases tokens.len(),
{
    if tokens.len() > 0 {
        let mid = choose|mid: Step|
            tokens_run(a, tokens.drop_last(), mid) && #[trigger] token_step(mid, tokens.last(), b);
        lemma_tokens_settings(a, tokens.drop_last(), mid);
        if let TokenView::Ansi(bytes) = tokens.last() {
            if screen_command(bytes) is Some || (mid.st.alternate && mid.st.live
                && layout_sequence(bytes)) {
                let (o, next) = choose|o: Seq<u8>, next: Stream| #[trigger]
                    flushes(mid.st, mid.held, o, next) && b == (Step {
                        st: after_boundary(next, bytes).1,
                        held: Seq::empty(),
                        out: mid.out + o + after_boundary(next, bytes).0,
                    });
                lemma_flush_settings(mid.st, mid.held, o, next);
            }
        }
    }
}

proof fn lemma_chunk_settings(st: Stream, s: Seq<u8>, out: Seq<u8>, end: Stream)
    requires
        chunk_run(st, s, out, end),
    ensures
        same_settings(st, end),
{
    reveal(chunk_run);
    if !(st.live && st.leaves_alone(s)) {
        let last = choose|last: Step| #[trigger]
            tokens_run(chunk_start(st), tokens_of(s), last) && chunk_ends(last, out, end);
        lemma_tokens_settings(chunk_start(st), tokens_of(s), last);
        let o = choose|o: Seq<u8>| #[trigger]
            flushes(last.st, last.held, o, end) && out == last.out + o;
        lemma_flush_settings(last.st, last.held, o, end);
    }
}

proof fn lemma_lines_settings(st: Stream, s: Seq<u8>, from: int, out: Seq<u8>, end: Stream)
    requires
        lines_run(st, s, from, out, end),
    ensures
        same_settings(st, end),
    decreases s.len() - from,
{
    if 0 <= from < s.len() {
        let rest = s.subrange(from, s.len() as int);
        lemma_line_break_from(rest, 0);
        match line_break_from(rest, 0) {
            Some((at, to)) => {
                let breaks = rest.subrange(at, to);
                let (o, mid) = choose|o: Seq<u8>, mid: Stream| #[trigger]
                    chunk_run(st, rest.subrange(0, at), o, mid) && begins_with(out, o + breaks)
                        && lines_run(mid, s, from + to, behind(out, o + breaks), end);
                lemma_chunk_settings(st, rest.subrange(0, at), o, mid);
                lemma_lines_settings(mid, s, from + to, behind(out, o + breaks), end);
            },
            None => lemma_chunk_settings(st, rest, out, end),
        }
    }
}

/// Highlighting output changes neither the rules nor how styles are written.
pub proof fn output_keeps_settings(st: Stream, s: Seq<u8>, out: Seq<u8>, end: Stream)
    requires
        output_run(st, s, out, end),
    ensures
        same_settings(st, end),
{
    if !st.live {
        lemma_chunk_settings(st, s, out, end);
    } else if !st.leaves_alone(s) {
        lemma_lines_settings(st, s, 0, out, end);
    }
}

proof fn lemma_shown_settings(st: Stream, text: Seq<u8>)
    ensures
        same_settings(st, st.after_all_shown(text)),
    decreases text.len(),
{
    if text.len() > 0 {
        lemma_shown_settings(st, text.drop_last());
    }
}

proof fn lemma_observed_settings(st: Stream, s: Seq<u8>)
    ensures
        same_settings(st, st.observed(s)),
{
    let start = if disables_paste(tokens_of(s)) {
        Stream { echoing: false, ..st }
    } else {
        st
    };
    lemma_shown_settings(start, visible(s));
}

proof fn lemma_settles_settings(st: Stream, s: Seq<u8>, out: Seq<u8>, end: Stream)
    requires
        settles(st, s, out, end),
    ensures
        same_settings(st, end),
{
    let (o, mid) = choose|o: Seq<u8>, mid: Stream| #[trigger]
        output_run(st, s, o, mid) && out == o + at_prompt(mid.observed(s)).0 && end == at_prompt(
            mid.observed(s),
        ).1;
    output_keeps_settings(st, s, o, mid);
    lemma_observed_settings(mid, s);
}

proof fn lemma_whole_settings(now: Stream, s: Seq<u8>, out: Seq<u8>, end: Stream)
    requires
        whole_run(now, s, out, end),
    ensures
        same_settings(now, end),
{
    reveal(whole_run);
    if starts_echo(now, s) || (now.live && now.echoing) {
        match echo_len(s, now.tail) {
            Some(n) => {
                let prompt = s.subrange(0, n);
                let rest = s.subrange(n, s.len() as int);
                let shown = now.echo_output(prompt);
                let mid = now.after_echo(prompt).observed(shown);
                let split = live_split(rest, false, mid.alternate);
                lemma_observed_settings(now.after_echo(prompt), shown);
                let kept = keeping(mid, rest, split, true);
                let o = choose|o: Seq<u8>| #[trigger]
                    settles(kept, rest.subrange(0, split), o, end) && out == shown + o;
                lemma_settles_settings(kept, rest.subrange(0, split), o, end);
            },
            None => lemma_observed_settings(now.after_echo(s), out),
        }
    } else {
        let split = if now.live {
            live_split(s, now.echoing, now.alternate)
        } else {
            stream_split(s)
        };
        lemma_settles_settings(
            keeping(now, s, split, false),
            s.subrange(0, split),
            out,
            end,
        );
    }
}

pub proof fn lemma_combined_settings(st: Stream, given: Seq<u8>, out: Seq<u8>, end: Stream)
    requires
        combined_run(st, given, out, end),
    ensures
        same_settings(st, end),
    decreases given.len(), 1int, 0int,
{
    let s = oversized_closed(given);
    let now = taking(st, s);
    lemma_oversized_closed_len(given);
    if by_lines(now, s) {
        lemma_pieces_settings(now, s, 0, out, end);
    } else {
        lemma_whole_settings(now, s, out, end);
    }
}

pub proof fn lemma_kept_settings(st: Stream, line: Seq<u8>, out: Seq<u8>, end: Stream)
    requires
        kept_run(st, line, out, end),
    ensures
        same_settings(st, end),
{
    let s = oversized_closed(st.pending + line);
    lemma_whole_settings(taking(Stream { pending: Seq::empty(), ..st }, s), s, out, end);
}

proof fn lemma_pieces_settings(st: Stream, s: Seq<u8>, from: int, out: Seq<u8>, end: Stream)
    requires
        pieces_run(st, s, from, out, end),
    ensures
        same_settings(st, end),
    decreases s.len(), 0int, s.len() - from,
{
    let rest = s.subrange(from, s.len() as int);
    lemma_line_break_from(rest, 0);
    match first_line_end(rest) {
        Some(to) => {
            let line = rest.subrange(0, to);
            let (o, mid) = choose|o: Seq<u8>, mid: Stream| #[trigger]
                gives(o, mid) && (if st.pending.len() == 0 {
                    combined_run(st, line, o, mid)
                } else {
                    kept_run(st, line, o, mid)
                }) && begins_with(out, o) && pieces_run(mid, s, from + to, behind(out, o), end);
            if st.pending.len() == 0 {
                lemma_combined_settings(st, line, o, mid);
            } else {
                lemma_kept_settings(st, line, o, mid);
            }
            lemma_pieces_settings(mid, s, from + to, behind(out, o), end);
        },
        None => {
            if st.pending.len() == 0 {
                lemma_combined_settings(st, rest, out, end);
            } else {
                lemma_kept_settings(st, rest, out, end);
            }
        },
    }
}

/// Pushing output changes neither the rules nor how styles are written.
pub proof fn pushing_keeps_settings(st: Stream, input: Seq<u8>, out: Seq<u8>, end: Stream)
    requires
        pushes(st, input, out, end),
    ensures
        same_settings(st, end),
{
    let (taken, filter) = incoming(st.filter, input);
    if let Some(bytes) = taken {
        let (through, mode) = filtered(filter, st.pending + bytes);
        lemma_combined_settings(
            Stream { pending: Seq::empty(), filter: mode, ..st },
            through,
            out,
            end,
        );
    }
}

/// Showing kept echo changes neither the rules nor how styles are written.
pub proof fn echo_keeps_settings(st: Stream, out: Seq<u8>, end: Stream)
    requires
        shows_echo(st, out, end),
    ensures
        same_settings(st, end),
{
    let echo = kept_echo(st);
    if echo.len() > 0 {
        let rest = st.pending.subrange(flushable_len(st.pending), st.pending.len() as int);
        lemma_settles_settings(Stream { pending: rest, ..st }, echo, out, end);
    }
}

/// Ending a stream changes neither the rules nor how styles are written.
pub proof fn finishing_keeps_settings(st: Stream, out: Seq<u8>, end: Stream)
    requires
        finishes(st, out, end),
    ensures
        same_settings(st, end),
{
    let rest = left_over(st);
    let cut = or_all(rest, cut_char_start(rest));
    let start = Stream {
        pending: Seq::empty(),
        filter: OversizedStringControlMode::Normal,
        ..st
    };
    let (o, mid) = choose|o: Seq<u8>, mid: Stream| #[trigger]
        output_run(start, rest.subrange(0, cut), o, mid) && ({
            let body = o + rest.subrange(cut, rest.len() as int);
            if st.live {
                out == body + mid.overlay_end() && end == mid.bare()
            } else {
                out == body && end == mid
            }
        });
    output_keeps_settings(start, rest.subrange(0, cut), o, mid);
}

} // verus!
