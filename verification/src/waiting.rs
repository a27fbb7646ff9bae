//! Laws about prompts: which lines wait for a command, and that what is typed
//! at a prompt comes through as it is.

use vstd::prelude::*;
use vstd::utf8::{encode_utf8, encode_utf8_decode_utf8, encode_utf8_valid_utf8};

use crate::bytes::{ascii_alphanumeric, ascii_graphic, digits, ends_with};
use crate::controls::{
    control_at, control_end, csi_intro, cursor_sequence, disables_paste, enables_screen, fields,
    layout_sequence, paste_disable, places_cursor, screen_command, text_run, tokens_from, tokens_of,
    visible, TokenView,
};
use crate::escapes::stateful_from;
use crate::invisible::{ascii_text, lemma_back, lemma_sequence_ends, opens_sequence, sequence_text};
use crate::prompt_echo::{
    blank_start, break_from, echo_at, echo_len, echo_up_to_cr, echo_up_to_lf, ends_with_marker,
    has_arrow, lemma_blank_start, prompt_body_char, prompt_echo, prompt_line, prompt_tail,
    right_trimmed, sgr_ranges, shown_at, shown_break, shown_bytes,
};
use crate::prompt_sgr::{echo_reset, ranges_within, sgr_plan, without_prompt_colors, ResetMode};
use crate::restoring::{lemma_code_applies, lemma_fields_joined, lemma_one_field, sepless};
use crate::sanitize::oversized_closed;
use crate::sgr::{after_sequence, SgrState};
use crate::split::{first_line_end, line_break_from};
use crate::stream_model::{
    by_lines, combined_run, output_run, pushes, rendition, taking, whole_run, Stream,
};
use crate::string_filter::{filtered, tail, OversizedStringControlMode};
use crate::style::sgr;

verus! {

/// A marker that prompts end in: `>`, `#`, `$` or `%`.
pub open spec fn marker(b: u8) -> bool {
    b == 0x3e || b == 0x23 || b == 0x24 || b == 0x25
}

/// Printable ASCII text, blanks among it.
pub open spec fn printable(x: Seq<u8>) -> bool {
    forall|k: int| 0 <= k < x.len() ==> 0x20 <= #[trigger] x[k] <= 0x7e
}

pub open spec fn blanks(x: Seq<u8>) -> bool {
    forall|k: int| 0 <= k < x.len() ==> #[trigger] x[k] == 0x20
}

/// An arrow, `->`, stands at `k`.
pub open spec fn arrow_at(x: Seq<u8>, k: int) -> bool {
    0 <= k < x.len() - 1 && x[k] == 0x2d && x[k + 1] == 0x3e
}

pub open spec fn name_byte(b: u8) -> bool {
    0x30 <= b <= 0x39 || 0x41 <= b <= 0x5a || 0x61 <= b <= 0x7a
}

proof fn lemma_blanks_off(s: Seq<u8>, n: int, end: int)
    requires
        0 <= n <= end <= s.len(),
        forall|k: int| n <= k < end ==> #[trigger] s[k] == 0x20,
        n > 0 ==> s[n - 1] > 0x20,
    ensures
        blank_start(s, end) == n,
    decreases end - n,
{
    if end > n {
        assert(s[end - 1] == 0x20);
        lemma_blanks_off(s, n, end - 1);
    }
}

proof fn lemma_trimmed_line(text: Seq<u8>, space: Seq<u8>)
    requires
        blanks(space),
        text.len() > 0,
        text.last() > 0x20,
    ensures
        right_trimmed(text + space) == text,
{
    let s = text + space;
    assert forall|k: int| text.len() <= k < s.len() implies #[trigger] s[k] == 0x20 by {
        assert(s[k] == space[k - text.len()]);
    }
    assert(s[text.len() - 1] == text.last());
    lemma_blanks_off(s, text.len() as int, s.len() as int);
    assert(s.subrange(0, text.len() as int) =~= text);
}

/// A printable line waits for a command if and only if it ends in a marker,
/// blanks aside, has a letter or a digit before it, is not too long and holds
/// no arrow; a lone `$` or `%` will do, too.
pub proof fn lines_wait_behind_markers(text: Seq<u8>, space: Seq<u8>)
    requires
        printable(text),
        text.len() > 0,
        text.last() != 0x20,
        blanks(space),
    ensures
        prompt_tail(text + space) <==> {
            &&& text.len() <= 180
            &&& marker(text.last())
            &&& forall|k: int| !#[trigger] arrow_at(text, k)
            &&& if text.len() == 1 {
                text[0] == 0x24 || text[0] == 0x25
            } else {
                exists|k: int| 0 <= k < text.len() - 1 && name_byte(#[trigger] text[k])
            }
        },
{
    assert(0x20 <= text[text.len() - 1] <= 0x7e);
    lemma_trimmed_line(text, space);
    if has_arrow(text) {
        let k = choose|k: int|
            0 <= k < text.len() - 1 && #[trigger] text[k] == 0x2d && text[k + 1] == 0x3e;
        assert(arrow_at(text, k));
    }
    if exists|k: int| #[trigger] arrow_at(text, k) {
        let k = choose|k: int| #[trigger] arrow_at(text, k);
        assert(text[k] == 0x2d);
        assert(has_arrow(text));
    }
    assert forall|k: int| 0 <= k < text.len() implies ascii_graphic(
        #[trigger] text[k],
    ) || text[k] == 0x20 by {}
    if !marker(text.last()) {
        assert(!ends_with_marker(text)) by {
            let n = text.len() as int;
            if ends_with_marker(text) {
                assert(n >= 2);
                assert(text.subrange(n - 2, n)[1] == text[n - 1]);
                if n >= 3 {
                    assert(text.subrange(n - 3, n)[2] == text[n - 1]);
                }
            }
        }
    }
    if text.len() > 1 {
        assert forall|k: int| 0 <= k < text.len() - 1 implies ascii_alphanumeric(
            #[trigger] text[k],
        ) == name_byte(text[k]) by {}
    }
}

/// A command behind such a prompt is told from it.
pub proof fn commands_stand_behind_prompts(text: Seq<u8>, space: Seq<u8>, command: Seq<u8>)
    requires
        printable(text),
        0 < text.len() <= 180,
        marker(text.last()),
        forall|k: int| !#[trigger] arrow_at(text, k),
        text.len() == 1 ==> text[0] == 0x24 || text[0] == 0x25,
        text.len() > 1 ==> exists|k: int| 0 <= k < text.len() - 1 && name_byte(#[trigger] text[k]),
        blanks(space),
        command.len() > 0,
        0x21 <= command[0] <= 0x7e,
    ensures
        prompt_echo(text + space + command),
        prompt_line(text + space + command),
{
    let none = Seq::<u8>::empty();
    let line = text + space + command;
    let n = text.len() as int;
    lines_wait_behind_markers(text, none);
    assert(text + none =~= text);
    lemma_trimmed_line(text, none);
    assert(line.subrange(0, n) =~= text);
    let rest = line.subrange(n, line.len() as int);
    assert(rest[space.len() as int] == command[0]);
    assert(text.len() == 1 ==> text != seq![0x3eu8] && text != seq![0x23u8]) by {
        if text.len() == 1 {
            assert(seq![0x3eu8][0] == 0x3e && seq![0x23u8][0] == 0x23);
        }
    }
    assert(seq![0x3eu8].len() == 1 && seq![0x23u8].len() == 1);
    assert(echo_at(line, n));
}

/// The bytes of a character that drawn prompts end in: circles, chevrons,
/// angle quotation marks, arrows, lambda.
pub open spec fn drawn_marker(m: Seq<u8>) -> bool {
    ||| m == seq![0xe2u8, 0x97u8, 0x8bu8] || m == seq![0xe2u8, 0x97u8, 0x8fu8]
    ||| m == seq![0xe2u8, 0x9du8, 0xafu8] || m == seq![0xe2u8, 0x9du8, 0xaeu8]
    ||| m == seq![0xe2u8, 0x9du8, 0xb1u8] || m == seq![0xe2u8, 0x80u8, 0xbau8]
    ||| m == seq![0xc2u8, 0xbbu8] || m == seq![0xceu8, 0xbbu8]
    ||| m == seq![0xe2u8, 0x9eu8, 0x9cu8] || m == seq![0xe2u8, 0x9eu8, 0xa4u8]
}

/// A blank, or a character that boxes, blocks and bars are drawn with.
pub open spec fn drawn_char(c: char) -> bool {
    c == ' ' || 0x2500 <= (c as int) <= 0x259f || 0xe0b0 <= (c as int) <= 0xe0bf
}

/// A line that ends in such a character waits for a command where it holds
/// nothing else, or something that prompts are drawn with.
pub proof fn drawn_prompts_wait(text: Seq<char>, m: Seq<u8>, space: Seq<u8>)
    requires
        drawn_marker(m),
        ends_with(encode_utf8(text), m),
        encode_utf8(text).len() <= 180,
        forall|k: int| !#[trigger] arrow_at(encode_utf8(text), k),
        forall|k: int|
            0 <= k < text.len() ==> 0x20 <= (#[trigger] text[k] as int) && !(0x7f <= (
            text[k] as int) <= 0x9f),
        text.len() == 1 || exists|k: int|
            0 <= k < text.len() - 1 && drawn_char(#[trigger] text[k]),
        blanks(space),
    ensures
        prompt_tail(encode_utf8(text) + space),
{
    let s = encode_utf8(text);
    let n = s.len() as int;
    encode_utf8_valid_utf8(text);
    encode_utf8_decode_utf8(text);
    assert(s.subrange(n - m.len(), n)[m.len() - 1] == s[n - 1]);
    assert(s[n - 1] == m[m.len() - 1]);
    lemma_trimmed_line(s, space);
    if has_arrow(s) {
        let k = choose|k: int|
            0 <= k < s.len() - 1 && #[trigger] s[k] == 0x2d && s[k + 1] == 0x3e;
        assert(arrow_at(s, k));
    }
    if text.len() != 1 {
        let k = choose|k: int| 0 <= k < text.len() - 1 && drawn_char(#[trigger] text[k]);
        assert(prompt_body_char(text[k]));
    }
}

proof fn lemma_plain_at(s: Seq<u8>, i: int)
    requires
        printable(s),
        0 <= i <= s.len(),
    ensures
        stateful_from(s, i) is None,
        line_break_from(s, i) is None,
        sgr_ranges(s, i) == Seq::<(int, int)>::empty(),
        echo_up_to_cr(s, Seq::empty(), i) is None,
        break_from(s, i) == s.len(),
        shown_bytes(shown_at(s, i)) == s.subrange(i, s.len() as int),
        tokens_from(s, 0, i) == text_run(s, 0, s.len() as int),
    decreases s.len() - i,
{
    if i < s.len() {
        assert(0x20 <= s[i] <= 0x7e);
        assert(!control_at(s, i));
        lemma_plain_at(s, i + 1);
        let here = Seq::new(1, |k: int| (s[i + k], i + k));
        assert(shown_at(s, i) =~= here + shown_at(s, i + 1));
        assert(shown_bytes(shown_at(s, i)) =~= seq![s[i]] + shown_bytes(shown_at(s, i + 1)));
        assert(seq![s[i]] + s.subrange(i + 1, s.len() as int) =~= s.subrange(i, s.len() as int));
    } else {
        assert(shown_bytes(shown_at(s, i)) =~= s.subrange(i, s.len() as int));
    }
}

proof fn lemma_no_return(s: Seq<u8>, before: Seq<u8>, i: int)
    requires
        printable(s),
        0 <= i <= s.len(),
    ensures
        echo_up_to_cr(s, before, i) is None,
    decreases s.len() - i,
{
    if i < s.len() {
        assert(0x20 <= s[i] <= 0x7e);
        lemma_no_return(s, before, i + 1);
    }
}

proof fn lemma_typed_tail(st: Stream, text: Seq<u8>)
    requires
        printable(text),
    ensures
        st.after_all_shown(text).echoing == st.echoing,
        st.after_all_shown(text).overlay == st.overlay,
        st.after_all_shown(text).native == st.native,
        st.after_all_shown(text).pending == st.pending,
        st.after_all_shown(text).alternate == st.alternate,
        st.after_all_shown(text).live == st.live,
    decreases text.len(),
{
    if text.len() > 0 {
        let n = text.len() - 1;
        assert(text[n] == text.last());
        assert(0x20 <= text[n] <= 0x7e);
        assert forall|k: int| 0 <= k < text.drop_last().len() implies 0x20
            <= #[trigger] text.drop_last()[k] <= 0x7e by {
            assert(text.drop_last()[k] == text[k]);
        }
        lemma_typed_tail(st, text.drop_last());
    }
}

proof fn lemma_passes(text: Seq<u8>)
    requires
        printable(text),
    ensures
        filtered(OversizedStringControlMode::Normal, text) == (
            text,
            OversizedStringControlMode::Normal,
        ),
        oversized_closed(text) == text,
        first_line_end(text) is None,
{
    lemma_plain_at(text, 0);
    assert(Seq::<u8>::empty() + tail(text, 0) =~= text);
}

proof fn lemma_plain_tokens(text: Seq<u8>)
    requires
        printable(text),
        text.len() > 0,
    ensures
        tokens_of(text) == seq![TokenView::Text(text)],
        !enables_screen(tokens_of(text)),
        !places_cursor(tokens_of(text)),
        !disables_paste(tokens_of(text)),
        visible(text) == text,
        forall|native: SgrState| #[trigger] rendition(native, tokens_of(text)) == native,
{
    lemma_plain_at(text, 0);
    let tokens = tokens_of(text);
    assert(text.subrange(0, text.len() as int) =~= text);
    assert(tokens == seq![TokenView::Text(text)]);
    assert(tokens[0] is Text);
    lemma_back(text, 0);
    assert(tokens.drop_last() =~= Seq::<TokenView>::empty());
    assert forall|native: SgrState| #[trigger] rendition(native, tokens) == native by {
        reveal_with_fuel(rendition, 2);
        assert(tokens.last() is Text);
    }
}

proof fn lemma_no_plan(text: Seq<u8>, before: Seq<u8>)
    requires
        printable(text),
    ensures
        sgr_plan(text, before).removed.len() == 0,
{
    lemma_plain_at(text, 0);
    let v = shown_at(text, 0);
    assert(shown_bytes(v) =~= text);
    assert(v.len() == text.len());
    assert(shown_break(v, 0) == text.len());
    let ranges = sgr_ranges(text, 0);
    assert forall|from: int, to: int| (#[trigger] ranges_within(ranges, from, to)).len() == 0 by {
        reveal(Seq::filter);
    }
}

proof fn lemma_no_echo_end(text: Seq<u8>, before: Seq<u8>)
    requires
        printable(text),
        text.len() > 0,
    ensures
        echo_len(text, before) is None,
{
    lemma_plain_at(text, 0);
    let v = shown_at(text, 0);
    assert(shown_bytes(v) =~= text);
    assert(v.len() == text.len());
    assert(shown_break(v, 0) == text.len());
    assert(0x20 <= text[0] <= 0x7e);
    lemma_no_return(text, before, 0);
    assert(echo_up_to_lf(text, v, prompt_line(before), 0) is None);
}

proof fn lemma_typed_whole(now: Stream, text: Seq<u8>, out: Seq<u8>, end: Stream)
    requires
        now.live,
        now.echoing,
        !now.alternate,
        now.overlay is None,
        printable(text),
        text.len() > 0,
        whole_run(now, text, out, end),
    ensures
        out == text,
        end.echoing,
        end.overlay is None,
        end.native == now.native,
        end.pending == now.pending,
{
    reveal(whole_run);
    lemma_no_echo_end(text, now.tail);
    lemma_no_plan(text, now.tail);
    lemma_plain_tokens(text);
    assert(without_prompt_colors(text, now.tail, now.reset_mode()) == text);
    assert(now.echo_output(text) =~= text);
    lemma_typed_tail(now.after_echo(text), text);
}

/// What is typed while a live stream shows a command line comes through as it
/// is, without a color on it, and the command line stays one.
pub proof fn typed_text_comes_through(st: Stream, text: Seq<u8>, out: Seq<u8>, end: Stream)
    requires
        st.live,
        st.echoing,
        !st.alternate,
        st.pending.len() == 0,
        st.filter is Normal,
        st.overlay is None,
        printable(text),
        text.len() > 0,
        pushes(st, text, out, end),
    ensures
        out == text,
        end.echoing,
        end.overlay is None,
        end.native == st.native,
        end.pending.len() == 0,
{
    assert(st.pending + text =~= text);
    lemma_passes(text);
    lemma_plain_tokens(text);
    assert(st.pending =~= Seq::<u8>::empty());
    let now = taking(st, text);
    assert(!by_lines(now, text));
    assert(combined_run(st, text, out, end));
    lemma_typed_whole(now, text, out, end);
}

proof fn lemma_tail_grows(st: Stream, text: Seq<u8>)
    requires
        printable(text),
        st.tail.len() + text.len() <= 512,
    ensures
        st.after_all_shown(text) == (Stream { tail: st.tail + text, ..st }),
    decreases text.len(),
{
    if text.len() > 0 {
        let before = text.drop_last();
        let n = text.len() - 1;
        assert(text[n] == text.last());
        assert(0x20 <= text[n] <= 0x7e);
        assert forall|k: int| 0 <= k < before.len() implies 0x20 <= #[trigger] before[k] <= 0x7e by {
            assert(before[k] == text[k]);
        }
        lemma_tail_grows(st, before);
        assert((st.tail + before).push(text.last()) =~= st.tail + text);
    } else {
        assert(st.tail + text =~= st.tail);
    }
}

/// A prompt at the start of a line makes that line a command line.
pub proof fn prompts_open_a_command_line(st: Stream, text: Seq<u8>, space: Seq<u8>)
    requires
        st.live,
        st.tail.len() == 0,
        printable(text),
        0 < text.len() <= 180,
        marker(text.last()),
        forall|k: int| !#[trigger] arrow_at(text, k),
        text.len() == 1 ==> text[0] == 0x24 || text[0] == 0x25,
        text.len() > 1 ==> exists|k: int| 0 <= k < text.len() - 1 && name_byte(#[trigger] text[k]),
        blanks(space),
        space.len() <= 300,
    ensures
        st.observed(text + space).echoing,
        st.observed(text + space).tail == text + space,
{
    let all = text + space;
    assert(printable(all)) by {
        assert forall|k: int| 0 <= k < all.len() implies 0x20 <= #[trigger] all[k] <= 0x7e by {
            if k < text.len() {
                assert(all[k] == text[k]);
            } else {
                assert(all[k] == space[k - text.len()]);
            }
        }
    }
    assert(text[text.len() - 1] == text.last());
    lines_wait_behind_markers(text, space);
    lemma_plain_tokens(all);
    lemma_tail_grows(st, all);
    assert(st.tail + all =~= all);
}

/// A line feed ends the command line.
pub proof fn line_feeds_close_the_command_line(st: Stream)
    requires
        st.live,
    ensures
        !st.observed(seq![0x0au8]).echoing,
        st.observed(seq![0x0au8]).tail.len() == 0,
{
    let s = seq![0x0au8];
    lemma_back(s, 0);
    assert(s.subrange(0, 1) =~= s);
    assert(!control_at(s, 0));
    reveal_with_fuel(tokens_from, 2);
    assert(tokens_of(s) == seq![TokenView::Text(s)]);
    assert(tokens_of(s)[0] is Text);
    reveal_with_fuel(Stream::after_all_shown, 2);
    assert(s.drop_last() =~= Seq::<u8>::empty());
    let none = Seq::<u8>::empty();
    lemma_blank_start(none, 0);
    assert(!prompt_tail(none));
    assert(!prompt_echo(none));
}

/// A carriage return behind a prompt with a command ends the command line;
/// one that goes back to the start of another line does not.
pub proof fn returns_close_the_command_line(st: Stream)
    requires
        st.live,
    ensures
        st.observed(seq![0x0du8]).tail.len() == 0,
        prompt_echo(st.tail) ==> !st.observed(seq![0x0du8]).echoing,
        !prompt_echo(st.tail) ==> st.observed(seq![0x0du8]).echoing == st.echoing,
{
    let s = seq![0x0du8];
    lemma_back(s, 0);
    assert(s.subrange(0, 1) =~= s);
    assert(!control_at(s, 0));
    reveal_with_fuel(tokens_from, 2);
    assert(tokens_of(s) == seq![TokenView::Text(s)]);
    assert(tokens_of(s)[0] is Text);
    reveal_with_fuel(Stream::after_all_shown, 2);
    assert(s.drop_last() =~= Seq::<u8>::empty());
    let none = Seq::<u8>::empty();
    lemma_blank_start(none, 0);
    assert(!prompt_tail(none));
    assert(!prompt_echo(none));
}

/// On the alternate screen nothing is taken for a command line.
pub proof fn full_screens_have_no_command_line(st: Stream, s: Seq<u8>)
    ensures
        st.alternate ==> !taking(st, s).echoing,
        !st.alternate && !enables_screen(tokens_of(s)) ==> taking(st, s).echoing == st.echoing,
        enables_screen(tokens_of(s)) ==> !taking(st, s).echoing,
{
}

/// The number of a mode that switches to the alternate screen: 47, 1047 or
/// 1049.
pub open spec fn screen_mode(mode: Seq<u8>) -> bool {
    ||| mode == seq![0x34u8, 0x37u8]
    ||| mode == seq![0x31u8, 0x30u8, 0x34u8, 0x37u8]
    ||| mode == seq![0x31u8, 0x30u8, 0x34u8, 0x39u8]
}

pub open spec fn all_digits(x: Seq<u8>) -> bool {
    x.len() > 0 && forall|k: int| 0 <= k < x.len() ==> 0x30 <= #[trigger] x[k] <= 0x39
}

proof fn lemma_mode_parts(o: Seq<u8>, body: Seq<u8>, last: u8)
    requires
        opens_sequence(o),
    ensures
        ({
            let s = o + seq![0x3fu8] + body + seq![last];
            &&& csi_intro(s) == o.len()
            &&& s[o.len() as int] == 0x3f
            &&& s.last() == last
            &&& s.subrange(o.len() as int + 1, s.len() - 1) == body
        }),
{
    let s = o + seq![0x3fu8] + body + seq![last];
    assert(s[0] == o[0]);
    assert(s.subrange(0, o.len() as int) =~= o);
    assert(s.subrange(o.len() as int + 1, s.len() - 1) =~= body);
    if o.len() == 1 {
        assert(s.subrange(0, 2)[0] == 0x9b);
        assert(seq![0x1bu8, 0x5bu8][0] == 0x1b && seq![0xc2u8, 0x9bu8][0] == 0xc2);
    }
}

/// The modes of the alternate screen switch to it and back, alone or behind
/// other modes; another mode does neither.
pub proof fn alternate_screens_are_noticed(o: Seq<u8>, others: Seq<u8>, mode: Seq<u8>)
    requires
        opens_sequence(o),
        all_digits(mode),
    ensures
        ({
            let front = o + seq![0x3fu8];
            let on = screen_command(front + mode + seq![0x68u8]);
            let off = screen_command(front + mode + seq![0x6cu8]);
            &&& screen_mode(mode) ==> on == Some(true) && off == Some(false)
            &&& !screen_mode(mode) ==> on is None && off is None
            &&& screen_mode(mode) ==> screen_command(
                front + (others.push(0x3b) + mode) + seq![0x68u8],
            ) == Some(true)
            &&& screen_mode(mode) ==> screen_command(
                front + (others.push(0x3b) + mode) + seq![0x6cu8],
            ) == Some(false)
        }),
{
    let both = others.push(0x3b) + mode;
    lemma_mode_parts(o, mode, 0x68);
    lemma_mode_parts(o, mode, 0x6c);
    lemma_mode_parts(o, both, 0x68);
    lemma_mode_parts(o, both, 0x6c);
    assert(sepless(mode, 0x3b)) by {
        assert forall|k: int| 0 <= k < mode.len() implies #[trigger] mode[k] != 0x3b by {}
    }
    lemma_one_field(mode, 0x3b);
    assert(fields(mode, 0x3b)[0] == mode);
    lemma_fields_joined(others, mode, 0x3b, 0);
    let f = fields(both, 0x3b);
    assert(f == fields(others, 0x3b) + seq![mode]);
    assert(f[f.len() - 1] == mode);
}

/// The sequences that move the cursor, and those that erase cells besides, are
/// told by their last bytes.
pub proof fn cursor_movements_are_noticed(o: Seq<u8>, params: Seq<u8>, last: u8)
    requires
        opens_sequence(o),
    ensures
        cursor_sequence(o + params + seq![last]) <==> last == 0x41 || last == 0x42 || last == 0x43
            || last == 0x44 || last == 0x45 || last == 0x46 || last == 0x47 || last == 0x48 || last
            == 0x66,
        layout_sequence(o + params + seq![last]) <==> last == 0x41 || last == 0x42 || last == 0x43
            || last == 0x44 || last == 0x45 || last == 0x46 || last == 0x47 || last == 0x48 || last
            == 0x66 || last == 0x4a || last == 0x4b || last == 0x58 || last == 0x64,
{
    let s = o + params + seq![last];
    assert(s[0] == o[0]);
    assert(s.subrange(0, o.len() as int) =~= o);
    assert(s.last() == last);
}

/// The sequence that ends bracketed paste, and no other mode, tells that a
/// command line is over.
pub proof fn pastes_end_with_their_mode(o: Seq<u8>, mode: Seq<u8>, last: u8)
    requires
        opens_sequence(o),
        all_digits(mode),
    ensures
        paste_disable(o + seq![0x3fu8] + mode + seq![last]) <==> mode == seq![
            0x32u8,
            0x30u8,
            0x30u8,
            0x34u8,
        ] && last == 0x6c,
{
    let s = o + seq![0x3fu8] + mode + seq![last];
    lemma_mode_parts(o, mode, last);
    let rest = s.subrange(o.len() as int, s.len() as int);
    let want = seq![0x3fu8, 0x32u8, 0x30u8, 0x30u8, 0x34u8, 0x6cu8];
    assert(rest =~= seq![0x3fu8] + mode + seq![last]);
    if mode == seq![0x32u8, 0x30u8, 0x30u8, 0x34u8] && last == 0x6c {
        assert(rest =~= want);
    }
    if rest == want {
        assert(mode =~= rest.subrange(1, rest.len() - 1));
        assert(want.subrange(1, 5) =~= seq![0x32u8, 0x30u8, 0x30u8, 0x34u8]);
        assert(rest[rest.len() - 1] == last);
    }
}

/// The line break behind a prompt line belongs to the command that was typed
/// there: a carriage return and a line feed, or a line feed alone.
pub proof fn line_breaks_end_the_command(text: Seq<u8>, space: Seq<u8>, rest: Seq<u8>)
    requires
        printable(text),
        0 < text.len() <= 180,
        marker(text.last()),
        forall|k: int| !#[trigger] arrow_at(text, k),
        text.len() == 1 ==> text[0] == 0x24 || text[0] == 0x25,
        text.len() > 1 ==> exists|k: int| 0 <= k < text.len() - 1 && name_byte(#[trigger] text[k]),
        blanks(space),
    ensures
        echo_len(seq![0x0du8, 0x0au8] + rest, text + space) == Some(2int),
        echo_len(seq![0x0au8] + rest, text + space) == Some(1int),
{
    assert(text[text.len() - 1] == text.last());
    lines_wait_behind_markers(text, space);
    let a = seq![0x0du8, 0x0au8] + rest;
    let b = seq![0x0au8] + rest;
    assert(a[0] == 0x0d && a[1] == 0x0a);
    assert(b[0] == 0x0a);
}

/// A command that follows a prompt in another color starts with a reset: of
/// everything, or of the text color.
pub proof fn commands_start_with_a_reset(st: SgrState)
    ensures
        after_sequence(st, echo_reset(ResetMode::Full)) == SgrState::initial(),
        after_sequence(st, echo_reset(ResetMode::Minimal)) == (SgrState { fg: None, ..st }),
{
    lemma_code_applies(st, 0);
    lemma_code_applies(st, 39);
    reveal_with_fuel(digits, 3);
    assert(digits(0) =~= seq![0x30u8]);
    assert(digits(39) =~= seq![0x33u8, 0x39u8]);
    assert(sgr(seq![digits(0)]) =~= echo_reset(ResetMode::Full));
    assert(sgr(seq![digits(39)]) =~= echo_reset(ResetMode::Minimal));
}

proof fn lemma_tokens_front(s: Seq<u8>, i: int, n: int)
    requires
        0 <= i <= n <= s.len(),
        forall|k: int| i <= k < n ==> #[trigger] s[k] < 0x80 && s[k] != 0x1b,
    ensures
        tokens_from(s, 0, i) == tokens_from(s, 0, n),
    decreases n - i,
{
    if i < n {
        assert(s[i] < 0x80 && s[i] != 0x1b);
        assert(!control_at(s, i));
        lemma_tokens_front(s, i + 1, n);
    }
}

proof fn lemma_tokens_back(s: Seq<u8>, e: int, i: int)
    requires
        0 <= e <= i <= s.len(),
        forall|k: int| e <= k < s.len() ==> #[trigger] s[k] < 0x80 && s[k] != 0x1b,
    ensures
        tokens_from(s, e, i) == text_run(s, e, s.len() as int),
    decreases s.len() - i,
{
    if i < s.len() {
        assert(s[i] < 0x80 && s[i] != 0x1b);
        assert(!control_at(s, i));
        lemma_tokens_back(s, e, i + 1);
    }
}

/// Text around one control sequence: its tokens.
proof fn lemma_one_sequence(
    before: Seq<u8>,
    o: Seq<u8>,
    params: Seq<u8>,
    last: u8,
    after: Seq<u8>,
)
    requires
        ascii_text(before),
        opens_sequence(o),
        sequence_text(params),
        0x40 <= last <= 0x7e,
        ascii_text(after),
    ensures
        ({
            let u = o + params + seq![last];
            let s = before + u + after;
            tokens_of(s) == text_run(s, 0, before.len() as int).push(TokenView::Ansi(u)) + text_run(
                s,
                (before.len() + u.len()) as int,
                s.len() as int,
            )
        }),
{
    let u = o + params + seq![last];
    let s = before + u + after;
    let n = before.len() as int;
    let i = n + o.len();
    let j = i + params.len();
    assert forall|k: int| 0 <= k < n implies #[trigger] s[k] < 0x80 && s[k] != 0x1b by {
        assert(s[k] == before[k]);
    }
    lemma_tokens_front(s, 0, n);
    assert(s[n] == o[0]) by {
        assert(u[0] == o[0]);
    }
    if o.len() == 2 {
        assert(s[n + 1] == u[1] && u[1] == o[1]);
    }
    assert forall|k: int| i <= k < j implies 0x20 <= #[trigger] s[k] <= 0x3f by {
        assert(s[k] == u[k - n]);
        assert(u[k - n] == params[k - i]);
    }
    assert(s[j] == last) by {
        assert(u[j - n] == last);
    }
    lemma_sequence_ends(s, i, j);
    assert(control_at(s, n));
    assert(control_end(s, n) == j + 1);
    assert(s.subrange(n, j + 1) =~= u);
    assert forall|k: int| j + 1 <= k < s.len() implies #[trigger] s[k] < 0x80 && s[k] != 0x1b by {
        assert(s[k] == after[k - j - 1]);
    }
    lemma_tokens_back(s, j + 1, j + 1);
}

/// Output that places the cursor on the main screen is drawn by a program, and
/// no color is laid over it.
pub proof fn placed_output_is_left_alone(
    st: Stream,
    before: Seq<u8>,
    o: Seq<u8>,
    params: Seq<u8>,
    last: u8,
    after: Seq<u8>,
    out: Seq<u8>,
    end: Stream,
)
    requires
        st.live,
        !st.alternate,
        st.overlay is None,
        ascii_text(before),
        opens_sequence(o),
        sequence_text(params),
        0x41 <= last <= 0x48 || last == 0x66,
        ascii_text(after),
        output_run(st, before + (o + params + seq![last]) + after, out, end),
    ensures
        out == before + (o + params + seq![last]) + after,
        end.overlay is None,
{
    let u = o + params + seq![last];
    let s = before + u + after;
    let n = before.len() as int;
    let tokens = tokens_of(s);
    let front = text_run(s, 0, n);
    let back = text_run(s, n + u.len(), s.len() as int);
    lemma_one_sequence(before, o, params, last, after);
    cursor_movements_are_noticed(o, params, last);
    let k = front.len() as int;
    assert(tokens[k] == TokenView::Ansi(u));
    assert(tokens[k] is Ansi && cursor_sequence(tokens[k]->Ansi_0));
    assert(places_cursor(tokens));
    assert(u.last() == last);
    assert(screen_command(u) is None);
    assert forall|i: int| 0 <= i < tokens.len() && #[trigger] tokens[i] is Ansi implies i == k by {
        if i < k {
            assert(tokens[i] == front[i]);
        } else if i > k {
            assert(tokens[i] == back[i - k - 1]);
        }
    }
    assert(!enables_screen(tokens));
    assert(Seq::<u8>::empty() + s =~= s);
}

} // verus!
