//! Prompts in visible text, and the echo of typed commands behind them.

use vstd::prelude::*;
use vstd::utf8::*;

use crate::bytes::{
    ascii_alphanumeric, ascii_graphic, ascii_whitespace, ends_with, has_suffix,
    is_ascii_alphanumeric, is_ascii_graphic, is_ascii_whitespace,
};
use crate::controls::{
    control_at, control_end, control_sequence_end, csi_intro, is_control_at, is_csi_sequence,
    lemma_control_end, strip_ansi, text_unit_end, visible,
};
use crate::lossy::utf8_text;
use crate::text::{chars_of, control_char, is_control_char, is_whitespace, whitespace};
use crate::utf8::valid_utf8_char_width_at;

verus! {

/// Characters that Unicode counts as alphabetic or numeric.
pub uninterp spec fn unicode_alphanumeric(c: char) -> bool;

/// `char::is_alphanumeric` tells the Unicode property of its argument.
pub assume_specification[ char::is_alphanumeric ](c: char) -> (r: bool)
    ensures
        r == unicode_alphanumeric(c),
;

/// End of `s[..end]` without ASCII white space at its end.
pub open spec fn blank_start(s: Seq<u8>, end: int) -> int
    decreases end,
{
    if 0 < end <= s.len() && ascii_whitespace(s[end - 1]) {
        blank_start(s, end - 1)
    } else {
        end
    }
}

pub proof fn lemma_blank_start(s: Seq<u8>, end: int)
    requires
        0 <= end <= s.len(),
    ensures
        0 <= blank_start(s, end) <= end,
        blank_start(s, end) > 0 ==> !ascii_whitespace(s[blank_start(s, end) - 1]),
    decreases end,
{
    if 0 < end && ascii_whitespace(s[end - 1]) {
        lemma_blank_start(s, end - 1);
    }
}

/// `s` without ASCII white space at its end.
pub open spec fn right_trimmed(s: Seq<u8>) -> Seq<u8> {
    s.subrange(0, blank_start(s, s.len() as int))
}

pub fn trim_ascii_whitespace_end<'a>(bytes: &'a [u8]) -> (r: &'a [u8])
    ensures
        r@ == right_trimmed(bytes@),
{
    let mut end: usize = bytes.len();
    while end > 0 && is_ascii_whitespace(bytes[end - 1])
        invariant
            end <= bytes@.len(),
            blank_start(bytes@, bytes@.len() as int) == blank_start(bytes@, end as int),
        decreases end,
    {
        end = end - 1;
    }
    vstd::slice::slice_subrange(bytes, 0, end)
}

/// Bytes that end a prompt: `> # $ %`.
pub open spec fn prompt_end_byte(b: u8) -> bool {
    b == 0x3e || b == 0x23 || b == 0x24 || b == 0x25
}

fn is_prompt_end_byte(b: u8) -> (r: bool)
    ensures
        r == prompt_end_byte(b),
{
    b == 0x3e || b == 0x23 || b == 0x24 || b == 0x25
}

/// `s` ends in one of the characters that modern prompts use: circles,
/// chevrons, arrows, lambda.
pub open spec fn ends_with_marker(s: Seq<u8>) -> bool {
    ||| ends_with(s, seq![0xe2u8, 0x97u8, 0x8bu8])
    ||| ends_with(s, seq![0xe2u8, 0x97u8, 0x8fu8])
    ||| ends_with(s, seq![0xe2u8, 0x9du8, 0xafu8])
    ||| ends_with(s, seq![0xe2u8, 0x9du8, 0xaeu8])
    ||| ends_with(s, seq![0xe2u8, 0x9du8, 0xb1u8])
    ||| ends_with(s, seq![0xe2u8, 0x80u8, 0xbau8])
    ||| ends_with(s, seq![0xc2u8, 0xbbu8])
    ||| ends_with(s, seq![0xe2u8, 0x9eu8, 0x9cu8])
    ||| ends_with(s, seq![0xe2u8, 0x9eu8, 0xa4u8])
    ||| ends_with(s, seq![0xceu8, 0xbbu8])
}

fn has_marker_suffix(s: &[u8]) -> (r: bool)
    ensures
        r == ends_with_marker(s@),
{
    let circle: [u8; 3] = [0xe2, 0x97, 0x8b];
    let disc: [u8; 3] = [0xe2, 0x97, 0x8f];
    let right: [u8; 3] = [0xe2, 0x9d, 0xaf];
    let left: [u8; 3] = [0xe2, 0x9d, 0xae];
    let heavy: [u8; 3] = [0xe2, 0x9d, 0xb1];
    let single: [u8; 3] = [0xe2, 0x80, 0xba];
    let double: [u8; 2] = [0xc2, 0xbb];
    let arrow: [u8; 3] = [0xe2, 0x9e, 0x9c];
    let tip: [u8; 3] = [0xe2, 0x9e, 0xa4];
    let lambda: [u8; 2] = [0xce, 0xbb];
    assert(circle@ =~= seq![0xe2u8, 0x97u8, 0x8bu8]);
    assert(disc@ =~= seq![0xe2u8, 0x97u8, 0x8fu8]);
    assert(right@ =~= seq![0xe2u8, 0x9du8, 0xafu8]);
    assert(left@ =~= seq![0xe2u8, 0x9du8, 0xaeu8]);
    assert(heavy@ =~= seq![0xe2u8, 0x9du8, 0xb1u8]);
    assert(single@ =~= seq![0xe2u8, 0x80u8, 0xbau8]);
    assert(double@ =~= seq![0xc2u8, 0xbbu8]);
    assert(arrow@ =~= seq![0xe2u8, 0x9eu8, 0x9cu8]);
    assert(tip@ =~= seq![0xe2u8, 0x9eu8, 0xa4u8]);
    assert(lambda@ =~= seq![0xceu8, 0xbbu8]);
    has_suffix(s, &circle) || has_suffix(s, &disc) || has_suffix(s, &right) || has_suffix(s, &left)
        || has_suffix(s, &heavy) || has_suffix(s, &single) || has_suffix(s, &double) || has_suffix(
        s,
        &arrow,
    ) || has_suffix(s, &tip) || has_suffix(s, &lambda)
}

/// Characters that prompts are decorated with: white space, box drawing,
/// blocks and powerline glyphs.
pub open spec fn decoration(c: char) -> bool {
    whitespace(c) || 0x2500 <= (c as int) <= 0x259f || 0xe0b0 <= (c as int) <= 0xe0bf
}

fn is_prompt_decoration_char(c: char) -> (r: bool)
    ensures
        r == decoration(c),
{
    let n = c as u32;
    is_whitespace(c) || (0x2500 <= n && n <= 0x259f) || (0xe0b0 <= n && n <= 0xe0bf)
}

/// A character that makes the text before a prompt marker look like a prompt.
pub open spec fn prompt_body_char(c: char) -> bool {
    unicode_alphanumeric(c) || decoration(c)
}

/// Text without control characters that is empty before its last character,
/// or holds something there that a prompt would hold.
pub open spec fn marked_prompt(text: Seq<char>) -> bool {
    &&& forall|k: int| 0 <= k < text.len() ==> !control_char(#[trigger] text[k])
    &&& text.len() <= 1 || exists|k: int|
        0 <= k < text.len() - 1 && #[trigger] prompt_body_char(text[k])
}

/// A prompt that ends in a Unicode marker.
pub open spec fn unicode_prompt(s: Seq<u8>) -> bool {
    ends_with_marker(s) && valid_utf8(s) && marked_prompt(decode_utf8(s))
}

/// Whether `text` looks like a prompt, given that it ends in a marker.
pub fn looks_like_marked_prompt(text: &[char]) -> (r: bool)
    ensures
        r == marked_prompt(text@),
{
    let mut i: usize = 0;
    while i < text.len()
        invariant
            i <= text@.len(),
            forall|k: int| 0 <= k < i ==> !control_char(#[trigger] text@[k]),
        decreases text@.len() - i,
    {
        if is_control_char(text[i]) {
            assert(control_char(text@[i as int]));
            return false;
        }
        i = i + 1;
    }
    if text.len() <= 1 {
        return true;
    }
    let mut k: usize = 0;
    while k < text.len() - 1
        invariant
            text@.len() > 1,
            k <= text@.len() - 1,
            forall|j: int| 0 <= j < k ==> !#[trigger] prompt_body_char(text@[j]),
            forall|j: int| 0 <= j < text@.len() ==> !control_char(#[trigger] text@[j]),
        decreases text@.len() - k,
    {
        if text[k].is_alphanumeric() || is_prompt_decoration_char(text[k]) {
            assert(prompt_body_char(text@[k as int]));
            return true;
        }
        k = k + 1;
    }
    false
}

fn looks_like_unicode_prompt_tail(trimmed: &[u8]) -> (r: bool)
    ensures
        r == unicode_prompt(trimmed@),
{
    if !has_marker_suffix(trimmed) {
        return false;
    }
    match utf8_text(trimmed) {
        Some(text) => looks_like_marked_prompt(chars_of(text.as_str()).as_slice()),
        None => false,
    }
}

/// `->` stands somewhere in `s`.
pub open spec fn has_arrow(s: Seq<u8>) -> bool {
    exists|k: int| 0 <= k < s.len() - 1 && #[trigger] s[k] == 0x2d && s[k + 1] == 0x3e
}

/// A line, trimmed, that ends in one of `> # $ %` and is a prompt: it has a
/// name in it (a lone `$` or `%` will do) and nothing but printable ASCII.
pub open spec fn ascii_prompt(t: Seq<u8>) -> bool {
    &&& if t.len() == 1 {
        t[0] == 0x24 || t[0] == 0x25
    } else {
        exists|k: int| 0 <= k < t.len() - 1 && ascii_alphanumeric(#[trigger] t[k])
    }
    &&& forall|k: int| 0 <= k < t.len() ==> ascii_graphic(#[trigger] t[k]) || t[k] == 0x20
}

/// The line is a prompt that waits for input.
pub open spec fn prompt_tail(line: Seq<u8>) -> bool {
    let t = right_trimmed(line);
    &&& 0 < t.len() <= 180
    &&& !has_arrow(t)
    &&& if prompt_end_byte(t.last()) {
        ascii_prompt(t)
    } else {
        unicode_prompt(t)
    }
}

fn contains_arrow(s: &[u8]) -> (r: bool)
    ensures
        r == has_arrow(s@),
{
    let len = s.len();
    if len < 2 {
        return false;
    }
    let mut k: usize = 0;
    while k < len - 1
        invariant
            len == s@.len(),
            len >= 2,
            k <= len - 1,
            forall|j: int| 0 <= j < k ==> !(#[trigger] s@[j] == 0x2d && s@[j + 1] == 0x3e),
        decreases len - k,
    {
        if s[k] == 0x2d && s[k + 1] == 0x3e {
            assert(s@[k as int] == 0x2d);
            return true;
        }
        k = k + 1;
    }
    false
}

fn is_ascii_prompt(t: &[u8]) -> (r: bool)
    requires
        t@.len() > 0,
    ensures
        r == ascii_prompt(t@),
{
    let len = t.len();
    let mut has_body: bool = false;
    if len == 1 {
        has_body = t[0] == 0x24 || t[0] == 0x25;
    } else {
        let mut k: usize = 0;
        while k < len - 1
            invariant
                len == t@.len(),
                len >= 2,
                k <= len - 1,
                has_body == exists|j: int| 0 <= j < k && ascii_alphanumeric(#[trigger] t@[j]),
            decreases len - k,
        {
            if is_ascii_alphanumeric(t[k]) {
                assert(ascii_alphanumeric(t@[k as int]));
                has_body = true;
            }
            k = k + 1;
        }
    }
    if !has_body {
        return false;
    }
    let mut i: usize = 0;
    while i < len
        invariant
            len == t@.len(),
            i <= len,
            forall|j: int| 0 <= j < i ==> ascii_graphic(#[trigger] t@[j]) || t@[j] == 0x20,
        decreases len - i,
    {
        if !(is_ascii_graphic(t[i]) || t[i] == 0x20) {
            assert(!(ascii_graphic(t@[i as int]) || t@[i as int] == 0x20));
            return false;
        }
        i = i + 1;
    }
    true
}

pub fn looks_like_prompt_tail(line: &[u8]) -> (r: bool)
    ensures
        r == prompt_tail(line@),
{
    let trimmed = trim_ascii_whitespace_end(line);
    let len = trimmed.len();
    if len == 0 || len > 180 {
        return false;
    }
    if contains_arrow(trimmed) {
        return false;
    }
    if is_prompt_end_byte(trimmed[len - 1]) {
        is_ascii_prompt(trimmed)
    } else {
        looks_like_unicode_prompt_tail(trimmed)
    }
}

/// `s` could be a prompt up to its last character.
pub open spec fn prompt_candidate(s: Seq<u8>) -> bool {
    s.len() > 0 && (prompt_end_byte(s.last()) || unicode_prompt(s))
}

/// `line` is a prompt that a command may follow.
pub open spec fn echo_prefix(line: Seq<u8>) -> bool {
    prompt_tail(line) && right_trimmed(line) != seq![0x3eu8] && right_trimmed(line) != seq![0x23u8]
}

/// Something other than white space stands in `s`.
pub open spec fn has_ink(s: Seq<u8>) -> bool {
    exists|k: int| 0 <= k < s.len() && !ascii_whitespace(#[trigger] s[k])
}

/// The first `end` bytes of the line are a prompt, and a command follows.
pub open spec fn echo_at(line: Seq<u8>, end: int) -> bool {
    &&& prompt_candidate(line.subrange(0, end))
    &&& echo_prefix(line.subrange(0, end))
    &&& has_ink(line.subrange(end, line.len() as int))
}

/// The line is a prompt with a command behind it.
pub open spec fn prompt_echo(line: Seq<u8>) -> bool {
    exists|end: int| 1 <= end < line.len() && #[trigger] echo_at(line, end)
}

fn is_prompt_tail_candidate_end(bytes: &[u8]) -> (r: bool)
    ensures
        r == prompt_candidate(bytes@),
{
    if bytes.len() == 0 {
        return false;
    }
    is_prompt_end_byte(bytes[bytes.len() - 1]) || looks_like_unicode_prompt_tail(bytes)
}

fn looks_like_prompt_echo_prefix(line: &[u8]) -> (r: bool)
    ensures
        r == echo_prefix(line@),
{
    if !looks_like_prompt_tail(line) {
        return false;
    }
    let trimmed = trim_ascii_whitespace_end(line);
    let ghost t = trimmed@;
    assert(t.len() == 1 ==> t =~= seq![t[0]]);
    assert(seq![0x3eu8][0] == 0x3e && seq![0x23u8][0] == 0x23);
    !(trimmed.len() == 1 && (trimmed[0] == 0x3e || trimmed[0] == 0x23))
}

pub fn contains_ink(s: &[u8]) -> (r: bool)
    ensures
        r == has_ink(s@),
{
    let mut k: usize = 0;
    while k < s.len()
        invariant
            k <= s@.len(),
            forall|j: int| 0 <= j < k ==> ascii_whitespace(#[trigger] s@[j]),
        decreases s@.len() - k,
    {
        if !is_ascii_whitespace(s[k]) {
            assert(!ascii_whitespace(s@[k as int]));
            return true;
        }
        k = k + 1;
    }
    false
}

pub fn is_echo_at(line: &[u8], end: usize) -> (r: bool)
    requires
        end <= line@.len(),
    ensures
        r == echo_at(line@, end as int),
{
    let head = vstd::slice::slice_subrange(line, 0, end);
    is_prompt_tail_candidate_end(head) && looks_like_prompt_echo_prefix(head) && contains_ink(
        vstd::slice::slice_subrange(line, end, line.len()),
    )
}

pub fn contains_prompt_echo_in_visible_line(line: &[u8]) -> (r: bool)
    ensures
        r == prompt_echo(line@),
{
    let mut end: usize = 1;
    while end < line.len()
        invariant
            1 <= end,
            forall|e: int| 1 <= e < end ==> !#[trigger] echo_at(line@, e),
        decreases line@.len() - end,
    {
        if is_echo_at(line, end) {
            assert(echo_at(line@, end as int));
            return true;
        }
        end = end + 1;
    }
    false
}

/// A line of visible text is a prompt, or a prompt with a command behind it.
pub open spec fn prompt_line(line: Seq<u8>) -> bool {
    prompt_tail(line) || prompt_echo(line)
}

pub fn is_prompt_line(line: &[u8]) -> (r: bool)
    ensures
        r == prompt_line(line@),
{
    looks_like_prompt_tail(line) || contains_prompt_echo_in_visible_line(line)
}

/// CR or LF.
pub open spec fn breaks_line(b: u8) -> bool {
    b == 0x0d || b == 0x0a
}

/// First line break at or behind `i`; the length where there is none.
pub open spec fn break_from(s: Seq<u8>, i: int) -> int
    decreases s.len() - i,
{
    if !(0 <= i < s.len()) {
        s.len() as int
    } else if breaks_line(s[i]) {
        i
    } else {
        break_from(s, i + 1)
    }
}

pub proof fn lemma_break_from(s: Seq<u8>, i: int)
    requires
        0 <= i <= s.len(),
    ensures
        i <= break_from(s, i) <= s.len(),
        break_from(s, i) < s.len() ==> breaks_line(s[break_from(s, i)]),
    decreases s.len() - i,
{
    if i < s.len() && !breaks_line(s[i]) {
        lemma_break_from(s, i + 1);
    }
}

/// Offset behind the last line break before `end`.
pub open spec fn last_line_start(s: Seq<u8>, end: int) -> int
    decreases end,
{
    if !(0 < end <= s.len()) {
        0
    } else if breaks_line(s[end - 1]) {
        end
    } else {
        last_line_start(s, end - 1)
    }
}

/// The last line of `s`, as far as it has come.
pub open spec fn last_line(s: Seq<u8>) -> Seq<u8> {
    s.subrange(last_line_start(s, s.len() as int), s.len() as int)
}

fn line_end_from(s: &[u8], from: usize) -> (r: usize)
    requires
        from <= s@.len(),
    ensures
        r == break_from(s@, from as int),
        from <= r <= s@.len(),
{
    let mut i: usize = from;
    while i < s.len()
        invariant
            from <= i <= s@.len(),
            break_from(s@, from as int) == break_from(s@, i as int),
        decreases s@.len() - i,
    {
        if s[i] == 0x0d || s[i] == 0x0a {
            return i;
        }
        i = i + 1;
    }
    i
}

fn last_line_of<'a>(s: &'a [u8]) -> (r: &'a [u8])
    ensures
        r@ == last_line(s@),
{
    let mut end: usize = s.len();
    while end > 0
        invariant
            end <= s@.len(),
            last_line_start(s@, s@.len() as int) == last_line_start(s@, end as int),
        decreases end,
    {
        if s[end - 1] == 0x0d || s[end - 1] == 0x0a {
            return vstd::slice::slice_subrange(s, end, s.len());
        }
        end = end - 1;
    }
    vstd::slice::slice_subrange(s, 0, s.len())
}

/// Some line of `s[i..]`, as CR and LF divide it, is a prompt with a command.
pub open spec fn echo_in_lines(s: Seq<u8>, i: int) -> bool
    decreases s.len() - i,
{
    let end = break_from(s, i);
    if !(0 <= i < s.len()) {
        false
    } else if i <= end {
        prompt_echo(s.subrange(i, end)) || (end < s.len() && echo_in_lines(s, end + 1))
    } else {
        false
    }
}

/// Whether a prompt with a command stands on any line.
pub fn chunk_contains_prompt_echo_anywhere(visible: &[u8]) -> (r: bool)
    ensures
        r == echo_in_lines(visible@, 0),
{
    let mut line_start: usize = 0;
    while line_start < visible.len()
        invariant
            line_start <= visible@.len(),
            echo_in_lines(visible@, 0) == echo_in_lines(visible@, line_start as int),
        decreases visible@.len() - line_start,
    {
        let line_end = line_end_from(visible, line_start);
        if contains_prompt_echo_in_visible_line(
            vstd::slice::slice_subrange(visible, line_start, line_end),
        ) {
            return true;
        }
        if line_end == visible.len() {
            return false;
        }
        line_start = line_end + 1;
    }
    false
}

/// Offset of the first LF; the length where there is none.
pub open spec fn first_lf(s: Seq<u8>) -> int {
    crate::controls::index_from(s, 0x0a, 0)
}

/// Offset behind the last CR before `end`.
pub open spec fn after_cr(s: Seq<u8>, end: int) -> int
    decreases end,
{
    if !(0 < end <= s.len()) {
        0
    } else if s[end - 1] == 0x0d {
        end
    } else {
        after_cr(s, end - 1)
    }
}

/// What the first line shows in the end, after its carriage returns, is a
/// prompt with a command.
pub open spec fn echo_on_first_line(s: Seq<u8>) -> bool {
    prompt_echo(s.subrange(after_cr(s, first_lf(s)), first_lf(s)))
}

pub fn contains_prompt_echo_before_lf_visible(visible: &[u8]) -> (r: bool)
    ensures
        r == echo_on_first_line(visible@),
{
    proof {
        crate::controls::lemma_index_from(visible@, 0x0a, 0);
    }
    let mut line_end: usize = 0;
    while line_end < visible.len() && visible[line_end] != 0x0a
        invariant
            line_end <= visible@.len(),
            first_lf(visible@) == crate::controls::index_from(visible@, 0x0a, line_end as int),
        decreases visible@.len() - line_end,
    {
        line_end = line_end + 1;
    }
    let mut start: usize = line_end;
    while start > 0 && visible[start - 1] != 0x0d
        invariant
            start <= line_end <= visible@.len(),
            after_cr(visible@, line_end as int) == after_cr(visible@, start as int),
        decreases start,
    {
        start = start - 1;
    }
    contains_prompt_echo_in_visible_line(vstd::slice::slice_subrange(visible, start, line_end))
}

/// What follows redraws a prompt line: its first visible line is a prompt, or
/// a prompt with a command.
pub open spec fn redraws_prompt(s: Seq<u8>) -> bool {
    prompt_line(visible(s).subrange(0, break_from(visible(s), 0)))
}

fn redraws_interactive_prompt_line(bytes: &[u8]) -> (r: bool)
    ensures
        r == redraws_prompt(bytes@),
{
    let shown = strip_ansi(bytes);
    let line_end = line_end_from(shown.as_slice(), 0);
    is_prompt_line(vstd::slice::slice_subrange(shown.as_slice(), 0, line_end))
}

/// The last visible line has a text on it that is no prompt and no prompt
/// with a command.
pub open spec fn promptless_tail(shown: Seq<u8>) -> bool {
    let line = right_trimmed(last_line(shown));
    line.len() > 0 && has_ink(line) && !prompt_line(line)
}

pub fn promptless_line_tail_visible(shown: &[u8]) -> (r: bool)
    ensures
        r == promptless_tail(shown@),
{
    let line = trim_ascii_whitespace_end(last_line_of(shown));
    line.len() > 0 && contains_ink(line) && !is_prompt_line(line)
}

/// Nothing but CR, LF and backspace.
pub open spec fn no_ink_shown(s: Seq<u8>) -> bool {
    forall|k: int|
        0 <= k < s.len() ==> #[trigger] s[k] == 0x0d || s[k] == 0x0a || s[k] == 0x08
}

pub fn has_no_printable_visible_bytes(input: &[u8]) -> (r: bool)
    ensures
        r == no_ink_shown(input@),
{
    let mut k: usize = 0;
    while k < input.len()
        invariant
            k <= input@.len(),
            forall|j: int|
                0 <= j < k ==> #[trigger] input@[j] == 0x0d || input@[j] == 0x0a || input@[j]
                    == 0x08,
        decreases input@.len() - k,
    {
        if !(input[k] == 0x0d || input[k] == 0x0a || input[k] == 0x08) {
            assert(!(input@[k as int] == 0x0d || input@[k as int] == 0x0a || input@[k as int]
                == 0x08));
            return false;
        }
        k = k + 1;
    }
    true
}

/// How much of `s` belongs to the prompt line that the previous chunk left:
/// its line ending.
pub open spec fn leading_break(s: Seq<u8>, before: Seq<u8>) -> Option<int> {
    if !prompt_line(before) {
        None
    } else if s.len() >= 2 && s[0] == 0x0d && s[1] == 0x0a {
        Some(2)
    } else if s.len() >= 1 && s[0] == 0x0a {
        Some(1)
    } else {
        None
    }
}

fn leading_prompt_terminator_len(bytes: &[u8], previous: &[u8]) -> (r: Option<usize>)
    ensures
        match r {
            Some(n) => leading_break(bytes@, previous@) == Some(n as int) && n <= bytes@.len(),
            None => leading_break(bytes@, previous@) is None,
        },
{
    if !is_prompt_line(previous) {
        return None;
    }
    if bytes.len() >= 2 && bytes[0] == 0x0d && bytes[1] == 0x0a {
        Some(2)
    } else if bytes.len() >= 1 && bytes[0] == 0x0a {
        Some(1)
    } else {
        None
    }
}

/// The visible line that a CR at `i` ends.
pub open spec fn line_before(s: Seq<u8>, i: int) -> Seq<u8> {
    last_line(visible(s.subrange(0, i)))
}

/// From `i` on, how much of `s` belongs to a command echo that a carriage
/// return ends: up to the return where what follows does not redraw a prompt,
/// or up to the end of a CR LF behind a prompt with a command.
pub open spec fn echo_up_to_cr(s: Seq<u8>, before: Seq<u8>, i: int) -> Option<int>
    decreases s.len() - i,
{
    if !(0 <= i < s.len()) {
        None
    } else if s[i] != 0x0d {
        echo_up_to_cr(s, before, i + 1)
    } else if i + 1 < s.len() && s[i + 1] == 0x0a {
        if prompt_echo(line_before(s, i)) {
            Some(i + 2)
        } else {
            echo_up_to_cr(s, before, i + 1)
        }
    } else if i + 1 >= s.len() {
        None
    } else if has_ink(line_before(s, i)) && (prompt_echo(line_before(s, i)) || prompt_line(before))
        && !redraws_prompt(s.subrange(i + 1, s.len() as int)) {
        Some(i + 1)
    } else {
        echo_up_to_cr(s, before, i + 1)
    }
}

pub proof fn lemma_echo_up_to_cr(s: Seq<u8>, before: Seq<u8>, i: int)
    requires
        0 <= i <= s.len(),
    ensures
        match echo_up_to_cr(s, before, i) {
            Some(n) => i < n <= s.len(),
            None => true,
        },
    decreases s.len() - i,
{
    if i < s.len() {
        lemma_echo_up_to_cr(s, before, i + 1);
    }
}

fn prompt_echo_cr_prefix_len(bytes: &[u8], previous: &[u8]) -> (r: Option<usize>)
    ensures
        match r {
            Some(n) => echo_up_to_cr(bytes@, previous@, 0) == Some(n as int) && n <= bytes@.len(),
            None => echo_up_to_cr(bytes@, previous@, 0) is None,
        },
{
    let len = bytes.len();
    let mut idx: usize = 0;
    while idx < len
        invariant
            len == bytes@.len(),
            idx <= len,
            echo_up_to_cr(bytes@, previous@, 0) == echo_up_to_cr(
                bytes@,
                previous@,
                idx as int,
            ),
        decreases len - idx,
    {
        if bytes[idx] != 0x0d {
            idx = idx + 1;
            continue;
        }
        let shown = strip_ansi(vstd::slice::slice_subrange(bytes, 0, idx));
        let line = last_line_of(shown.as_slice());
        if idx + 1 < len && bytes[idx + 1] == 0x0a {
            if contains_prompt_echo_in_visible_line(line) {
                return Some(idx + 2);
            }
            idx = idx + 1;
            continue;
        }
        if idx + 1 >= len {
            return None;
        }
        if contains_ink(line) && (contains_prompt_echo_in_visible_line(line) || is_prompt_line(
            previous,
        )) && !redraws_interactive_prompt_line(vstd::slice::slice_subrange(bytes, idx + 1, len)) {
            return Some(idx + 1);
        }
        idx = idx + 1;
    }
    None
}

/// The visible bytes of `s[i..]` with their offsets.
pub open spec fn shown_at(s: Seq<u8>, i: int) -> Seq<(u8, int)>
    decreases s.len() - i,
{
    if !(0 <= i < s.len()) {
        Seq::empty()
    } else if control_at(s, i) {
        proof {
            lemma_control_end(s, i);
        }
        shown_at(s, control_end(s, i))
    } else {
        Seq::new(
            (text_unit_end(s, i) - i) as nat,
            |k: int| (s[i + k], i + k),
        ) + shown_at(s, text_unit_end(s, i))
    }
}

/// A control sequence that sets the graphic rendition.
pub open spec fn is_sgr(s: Seq<u8>) -> bool {
    csi_intro(s) > 0 && s.last() == 0x6d
}

/// The ranges of the SGR sequences of `s[i..]`.
pub open spec fn sgr_ranges(s: Seq<u8>, i: int) -> Seq<(int, int)>
    decreases s.len() - i,
{
    if !(0 <= i < s.len()) {
        Seq::empty()
    } else if control_at(s, i) {
        proof {
            lemma_control_end(s, i);
        }
        let end = control_end(s, i);
        if is_sgr(s.subrange(i, end)) {
            seq![(i, end)] + sgr_ranges(s, end)
        } else {
            sgr_ranges(s, end)
        }
    } else {
        sgr_ranges(s, text_unit_end(s, i))
    }
}

pub proof fn lemma_sgr_ranges(s: Seq<u8>, i: int)
    requires
        0 <= i,
    ensures
        forall|k: int|
            0 <= k < sgr_ranges(s, i).len() ==> i <= (#[trigger] sgr_ranges(s, i)[k]).0 < s.len()
                && control_at(s, sgr_ranges(s, i)[k].0) && sgr_ranges(s, i)[k].1 == control_end(
                s,
                sgr_ranges(s, i)[k].0,
            ),
    decreases s.len() - i,
{
    if i < s.len() {
        if control_at(s, i) {
            lemma_control_end(s, i);
            let end = control_end(s, i);
            lemma_sgr_ranges(s, end);
            let rest = sgr_ranges(s, end);
            let all = sgr_ranges(s, i);
            if is_sgr(s.subrange(i, end)) {
                assert forall|k: int| 0 <= k < all.len() implies i <= (#[trigger] all[k]).0
                    < s.len() && control_at(s, all[k].0) && all[k].1 == control_end(
                    s,
                    all[k].0,
                ) by {
                    if k > 0 {
                        assert(all[k] == rest[k - 1]);
                    }
                }
            } else {
                assert(all == rest);
            }
        } else {
            lemma_sgr_ranges(s, text_unit_end(s, i));
            assert(sgr_ranges(s, i) == sgr_ranges(s, text_unit_end(s, i)));
        }
    }
}

pub open spec fn shown_bytes(v: Seq<(u8, int)>) -> Seq<u8> {
    v.map_values(|p: (u8, int)| p.0)
}

pub open spec fn pair_ints(v: Seq<(u8, usize)>) -> Seq<(u8, int)> {
    v.map_values(|p: (u8, usize)| (p.0, p.1 as int))
}

pub open spec fn range_ints(v: Seq<(usize, usize)>) -> Seq<(int, int)> {
    v.map_values(|p: (usize, usize)| (p.0 as int, p.1 as int))
}

/// The visible bytes of `input` with their offsets, and the ranges of its SGR
/// sequences.
pub fn visible_byte_map_and_ansi_ranges(input: &[u8]) -> (r: (Vec<(u8, usize)>, Vec<(usize, usize)>))
    ensures
        pair_ints(r.0@) == shown_at(input@, 0),
        range_ints(r.1@) == sgr_ranges(input@, 0),
        forall|k: int| 0 <= k < r.0@.len() ==> (#[trigger] r.0@[k]).1 < input@.len(),
        forall|k: int|
            0 <= k < r.1@.len() ==> (#[trigger] r.1@[k]).0 < r.1@[k].1 <= input@.len(),
{
    let mut shown: Vec<(u8, usize)> = Vec::new();
    let mut ranges: Vec<(usize, usize)> = Vec::new();
    let mut idx: usize = 0;
    let ghost s = input@;
    assert(pair_ints(shown@) + shown_at(s, 0) =~= shown_at(s, 0));
    assert(range_ints(ranges@) + sgr_ranges(s, 0) =~= sgr_ranges(s, 0));
    while idx < input.len()
        invariant
            s == input@,
            idx <= s.len(),
            pair_ints(shown@) + shown_at(s, idx as int) == shown_at(s, 0),
            range_ints(ranges@) + sgr_ranges(s, idx as int) == sgr_ranges(s, 0),
            forall|k: int| 0 <= k < shown@.len() ==> (#[trigger] shown@[k]).1 < s.len(),
            forall|k: int|
                0 <= k < ranges@.len() ==> (#[trigger] ranges@[k]).0 < ranges@[k].1 <= s.len(),
        decreases s.len() - idx,
    {
        if is_control_at(input, idx) {
            proof {
                lemma_control_end(s, idx as int);
            }
            let end = control_sequence_end(input, idx);
            let sequence = vstd::slice::slice_subrange(input, idx, end);
            let ghost before = range_ints(ranges@);
            if is_csi_sequence(sequence) && sequence[sequence.len() - 1] == 0x6d {
                ranges.push((idx, end));
                assert(range_ints(ranges@) =~= before.push((idx as int, end as int)));
                assert(before + sgr_ranges(s, idx as int) =~= range_ints(ranges@) + sgr_ranges(
                    s,
                    end as int,
                ));
            }
            idx = end;
        } else {
            let end: usize = match valid_utf8_char_width_at(input, idx) {
                Some(width) => idx + width,
                None => idx + 1,
            };
            let ghost before = pair_ints(shown@);
            let ghost from = idx as int;
            let mut k: usize = idx;
            let ghost unit = Seq::new((end - from) as nat, |j: int| (s[from + j], from + j));
            assert(pair_ints(shown@) =~= before + unit.take(0));
            while k < end
                invariant
                    s == input@,
                    from <= k <= end <= s.len(),
                    unit == Seq::new((end - from) as nat, |j: int| (s[from + j], from + j)),
                    pair_ints(shown@) == before + unit.take(k - from),
                    forall|j: int| 0 <= j < shown@.len() ==> (#[trigger] shown@[j]).1 < s.len(),
                decreases end - k,
            {
                let ghost now = pair_ints(shown@);
                shown.push((input[k], k));
                assert(pair_ints(shown@) =~= now.push((s[k as int], k as int)));
                assert(unit.take(k + 1 - from) =~= unit.take(k - from).push(unit[k - from]));
                assert(pair_ints(shown@) =~= before + unit.take(k + 1 - from));
                k = k + 1;
            }
            assert(unit.take(end - from) =~= unit);
            assert(before + shown_at(s, from) =~= pair_ints(shown@) + shown_at(s, end as int));
            idx = end;
        }
    }
    assert(pair_ints(shown@) =~= shown_at(s, 0));
    assert(range_ints(ranges@) =~= sgr_ranges(s, 0));
    (shown, ranges)
}

/// First line break among the visible bytes at or behind `i`.
pub open spec fn shown_break(v: Seq<(u8, int)>, i: int) -> int {
    break_from(shown_bytes(v), i)
}

/// From visible byte `i` on, how much of the input belongs to a command echo
/// that a line feed ends. `goes_on` tells that the first line continues a
/// prompt line.
pub open spec fn echo_up_to_lf(s: Seq<u8>, v: Seq<(u8, int)>, goes_on: bool, i: int) -> Option<int>
    decreases v.len() - i,
{
    let end = shown_break(v, i);
    if !(0 <= i <= v.len()) || !(i <= end) {
        None
    } else {
        let line = shown_bytes(v).subrange(i, end);
        if i < end && (prompt_echo(line) || (i == 0 && goes_on && has_ink(line))) {
            if end >= v.len() {
                None
            } else if v[end].0 == 0x0d && v[end].1 + 1 < s.len() && s[v[end].1 + 1] == 0x0a {
                Some(v[end].1 + 2)
            } else if v[end].0 == 0x0a {
                Some(v[end].1 + 1)
            } else {
                None
            }
        } else if end >= v.len() {
            None
        } else {
            echo_up_to_lf(s, v, goes_on, end + 1)
        }
    }
}

pub fn shown_line(shown: &Vec<(u8, usize)>, from: usize) -> (r: (Vec<u8>, usize))
    requires
        from <= shown@.len(),
    ensures
        r.1 == shown_break(pair_ints(shown@), from as int),
        from <= r.1 <= shown@.len(),
        r.0@ == shown_bytes(pair_ints(shown@)).subrange(from as int, r.1 as int),
{
    let ghost all = shown_bytes(pair_ints(shown@));
    let mut line: Vec<u8> = Vec::new();
    let mut i: usize = from;
    assert(all.subrange(from as int, from as int) =~= Seq::<u8>::empty());
    while i < shown.len()
        invariant
            from <= i <= shown@.len(),
            all == shown_bytes(pair_ints(shown@)),
            break_from(all, from as int) == break_from(all, i as int),
            line@ == all.subrange(from as int, i as int),
        decreases shown@.len() - i,
    {
        let byte = shown[i].0;
        assert(all[i as int] == byte);
        if byte == 0x0d || byte == 0x0a {
            return (line, i);
        }
        line.push(byte);
        assert(line@ =~= all.subrange(from as int, i + 1));
        i = i + 1;
    }
    (line, i)
}

fn prompt_echo_lf_prefix_len(bytes: &[u8], previous: &[u8]) -> (r: Option<usize>)
    ensures
        match r {
            Some(n) => echo_up_to_lf(bytes@, shown_at(bytes@, 0), prompt_line(previous@), 0)
                == Some(n as int) && n <= bytes@.len(),
            None => echo_up_to_lf(bytes@, shown_at(bytes@, 0), prompt_line(previous@), 0) is None,
        },
{
    let (shown, _ranges) = visible_byte_map_and_ansi_ranges(bytes);
    let ghost v = shown_at(bytes@, 0);
    let goes_on = is_prompt_line(previous);
    let len = bytes.len();
    let mut line_start: usize = 0;
    while line_start <= shown.len()
        invariant
            len == bytes@.len(),
            line_start <= shown@.len(),
            pair_ints(shown@) == v,
            goes_on == prompt_line(previous@),
            v == shown_at(bytes@, 0),
            forall|k: int| 0 <= k < shown@.len() ==> (#[trigger] shown@[k]).1 < len,
            echo_up_to_lf(bytes@, v, goes_on, 0) == echo_up_to_lf(
                bytes@,
                v,
                goes_on,
                line_start as int,
            ),
        decreases shown@.len() + 1 - line_start,
    {
        let (line, line_end) = shown_line(&shown, line_start);
        let has_echo = line_start < line_end && (contains_prompt_echo_in_visible_line(
            line.as_slice(),
        ) || (line_start == 0 && goes_on && contains_ink(line.as_slice())));
        if has_echo {
            if line_end >= shown.len() {
                return None;
            }
            let (byte, raw) = shown[line_end];
            assert(v[line_end as int] == (byte, raw as int));
            if byte == 0x0d && raw + 1 < len && bytes[raw + 1] == 0x0a {
                return Some(raw + 2);
            }
            if byte == 0x0a {
                return Some(raw + 1);
            }
            return None;
        }
        if line_end >= shown.len() {
            return None;
        }
        line_start = line_end + 1;
    }
    None
}

/// How much of `s` belongs to the command echo on a prompt line, where
/// `before` is the visible line that the previous chunk left.
pub open spec fn echo_len(s: Seq<u8>, before: Seq<u8>) -> Option<int> {
    let cr = echo_up_to_cr(s, before, 0);
    let lf = echo_up_to_lf(s, shown_at(s, 0), prompt_line(before), 0);
    if leading_break(s, before) is Some {
        leading_break(s, before)
    } else if cr is Some && lf is Some && cr->Some_0 < lf->Some_0 {
        cr
    } else if lf is Some {
        lf
    } else {
        cr
    }
}

pub fn prompt_echo_line_prefix_len(bytes: &[u8], previous: &[u8]) -> (r: Option<usize>)
    ensures
        match r {
            Some(n) => echo_len(bytes@, previous@) == Some(n as int) && n <= bytes@.len(),
            None => echo_len(bytes@, previous@) is None,
        },
{
    if let Some(n) = leading_prompt_terminator_len(bytes, previous) {
        return Some(n);
    }
    let cr = prompt_echo_cr_prefix_len(bytes, previous);
    let lf = prompt_echo_lf_prefix_len(bytes, previous);
    match lf {
        Some(lf) => match cr {
            Some(cr) => if cr < lf {
                Some(cr)
            } else {
                Some(lf)
            },
            None => Some(lf),
        },
        None => cr,
    }
}

} // verus!
