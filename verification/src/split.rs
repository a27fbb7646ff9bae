//! Where a chunk of a stream may be cut so that the rest waits for more input.

use vstd::prelude::*;

use crate::bytes::{ascii_alphanumeric, is_ascii_alphanumeric};
use crate::controls::{
    control_at, control_end, control_sequence_end, is_control_at, lemma_control_end, text_unit_end,
};
use crate::escapes::{incomplete_top_level_escape_start, lemma_open_control, open_control};
use crate::utf8::{
    byte_is_inside_utf8_codepoint_or_prefix, cut_char_start, incomplete_utf8_start, inside_char,
    lemma_cut_char_in_range, valid_utf8_char_width_at,
};

verus! {

/// Longest token that is held back at the end of a chunk.
pub const MAX_HELD_TOKEN_BYTES: usize = 512;

/// A byte that may go on as part of a token: letters, digits and `_ - / .`.
pub open spec fn token_byte(b: u8) -> bool {
    ascii_alphanumeric(b) || b == 0x5f || b == 0x2d || b == 0x2f || b == 0x2e
}

pub fn is_token_continuation(byte: u8) -> (r: bool)
    ensures
        r == token_byte(byte),
{
    is_ascii_alphanumeric(byte) || byte == 0x5f || byte == 0x2d || byte == 0x2f || byte == 0x2e
}

/// Start of the run of token bytes that ends at `end`.
pub open spec fn token_start(s: Seq<u8>, end: int) -> int
    decreases end,
{
    if 0 < end <= s.len() && token_byte(s[end - 1]) {
        token_start(s, end - 1)
    } else {
        end
    }
}

/// A control sequence begins at `p`, outside any character, and reaches over
/// `index`.
pub open spec fn control_covers(s: Seq<u8>, p: int, index: int) -> bool {
    control_at(s, p) && !inside_char(s, p) && p < index < control_end(s, p)
}

/// End of the control sequence that covers `index` and begins last before
/// `end`.
pub open spec fn covering_end(s: Seq<u8>, index: int, end: int) -> Option<int>
    decreases end,
{
    if end <= 0 {
        None
    } else if control_covers(s, end - 1, index) {
        Some(control_end(s, end - 1))
    } else {
        covering_end(s, index, end - 1)
    }
}

proof fn lemma_covering_end(s: Seq<u8>, index: int, end: int)
    requires
        0 <= end <= s.len(),
    ensures
        match covering_end(s, index, end) {
            Some(e) => index < e <= s.len(),
            None => true,
        },
    decreases end,
{
    if end > 0 {
        lemma_control_end(s, end - 1);
        lemma_covering_end(s, index, end - 1);
    }
}

proof fn lemma_token_start(s: Seq<u8>, end: int)
    requires
        0 <= end <= s.len(),
    ensures
        0 <= token_start(s, end) <= end,
    decreases end,
{
    if 0 < end && token_byte(s[end - 1]) {
        lemma_token_start(s, end - 1);
    }
}

pub fn ansi_sequence_end_containing(bytes: &[u8], index: usize) -> (r: Option<usize>)
    requires
        index <= bytes@.len(),
    ensures
        match r {
            Some(end) => covering_end(bytes@, index as int, index as int) == Some(end as int)
                && index < end <= bytes@.len(),
            None => covering_end(bytes@, index as int, index as int) is None,
        },
{
    proof {
        lemma_covering_end(bytes@, index as int, index as int);
    }
    let mut end: usize = index;
    while end > 0
        invariant
            end <= index <= bytes@.len(),
            covering_end(bytes@, index as int, index as int) == covering_end(
                bytes@,
                index as int,
                end as int,
            ),
        decreases end,
    {
        let start: usize = end - 1;
        if is_control_at(bytes, start) && !byte_is_inside_utf8_codepoint_or_prefix(bytes, start) {
            let control_end = control_sequence_end(bytes, start);
            if index < control_end {
                return Some(control_end);
            }
        }
        end = start;
    }
    None
}

/// Where the trailing token of `s` begins, which waits for the rest of it.
pub open spec fn token_split(s: Seq<u8>) -> int {
    let run = token_start(s, s.len() as int);
    let start = match covering_end(s, run, run) {
        Some(end) => end,
        None => run,
    };
    if s.len() - start <= MAX_HELD_TOKEN_BYTES {
        start
    } else {
        s.len() as int
    }
}

/// How much of `s` is highlighted now: everything before an open control, a
/// cut character, or a trailing token.
pub open spec fn stream_split(s: Seq<u8>) -> int {
    if s.len() == 0 {
        0
    } else if open_control(s) is Some {
        open_control(s)->Some_0
    } else if cut_char_start(s) is Some {
        cut_char_start(s)->Some_0
    } else {
        token_split(s)
    }
}

/// A split lies within the input, and holds back a token of at most the
/// limit where no control and no character is open.
pub proof fn lemma_stream_split(s: Seq<u8>)
    ensures
        0 <= stream_split(s) <= s.len(),
        open_control(s) is None && cut_char_start(s) is None ==> s.len() - stream_split(s)
            <= MAX_HELD_TOKEN_BYTES,
{
    lemma_open_control(s);
    lemma_cut_char_in_range(s);
    lemma_token_start(s, s.len() as int);
    let run = token_start(s, s.len() as int);
    lemma_covering_end(s, run, run);
}

pub fn streaming_split_at(bytes: &[u8]) -> (r: usize)
    ensures
        r == stream_split(bytes@),
        r <= bytes@.len(),
{
    proof {
        lemma_stream_split(bytes@);
    }
    let len = bytes.len();
    if len == 0 {
        return 0;
    }
    if let Some(escape_start) = incomplete_top_level_escape_start(bytes) {
        return escape_start;
    }
    if let Some(utf8_start) = incomplete_utf8_start(bytes) {
        return utf8_start;
    }
    let mut start: usize = len;
    while start > 0 && is_token_continuation(bytes[start - 1])
        invariant
            len == bytes@.len(),
            start <= len,
            token_start(bytes@, len as int) == token_start(bytes@, start as int),
        decreases start,
    {
        start = start - 1;
    }
    if let Some(ansi_end) = ansi_sequence_end_containing(bytes, start) {
        start = ansi_end;
    }
    if len - start <= MAX_HELD_TOKEN_BYTES {
        start
    } else {
        len
    }
}

/// The first line break in the visible text of `s` from `i` on, with the
/// offset behind it; CR LF counts as one break.
pub open spec fn line_break_from(s: Seq<u8>, i: int) -> Option<(int, int)>
    decreases s.len() - i,
{
    if !(0 <= i < s.len()) {
        None
    } else if control_at(s, i) {
        proof {
            lemma_control_end(s, i);
        }
        line_break_from(s, control_end(s, i))
    } else if s[i] == 0x0d && i + 1 < s.len() && s[i + 1] == 0x0a {
        Some((i, i + 2))
    } else if s[i] == 0x0d || s[i] == 0x0a {
        Some((i, i + 1))
    } else {
        line_break_from(s, text_unit_end(s, i))
    }
}

pub proof fn lemma_line_break_from(s: Seq<u8>, i: int)
    requires
        0 <= i <= s.len(),
    ensures
        match line_break_from(s, i) {
            Some((at, end)) => i <= at < end <= s.len() && end <= at + 2,
            None => true,
        },
    decreases s.len() - i,
{
    if i < s.len() {
        if control_at(s, i) {
            lemma_control_end(s, i);
            lemma_line_break_from(s, control_end(s, i));
        } else {
            lemma_line_break_from(s, text_unit_end(s, i));
        }
    }
}

pub fn first_terminal_text_line_boundary(bytes: &[u8]) -> (r: Option<(usize, usize)>)
    ensures
        match r {
            Some((at, end)) => line_break_from(bytes@, 0) == Some((at as int, end as int)) && at
                < end <= bytes@.len(),
            None => line_break_from(bytes@, 0) is None,
        },
{
    proof {
        lemma_line_break_from(bytes@, 0);
    }
    let mut idx: usize = 0;
    while idx < bytes.len()
        invariant
            idx <= bytes@.len(),
            line_break_from(bytes@, 0) == line_break_from(bytes@, idx as int),
        decreases bytes@.len() - idx,
    {
        if is_control_at(bytes, idx) {
            proof {
                lemma_control_end(bytes@, idx as int);
            }
            idx = control_sequence_end(bytes, idx);
            continue;
        }
        if let Some(width) = valid_utf8_char_width_at(bytes, idx) {
            idx = idx + width;
            continue;
        }
        let byte = bytes[idx];
        if byte == 0x0d && idx + 1 < bytes.len() && bytes[idx + 1] == 0x0a {
            return Some((idx, idx + 2));
        }
        if byte == 0x0d || byte == 0x0a {
            return Some((idx, idx + 1));
        }
        idx = idx + 1;
    }
    None
}

/// Offset behind the first line break of `s`, unless nothing follows it.
pub open spec fn first_line_end(s: Seq<u8>) -> Option<int> {
    match line_break_from(s, 0) {
        Some((_, end)) => if end < s.len() {
            Some(end)
        } else {
            None
        },
        None => None,
    }
}

pub fn find_first_line_boundary(bytes: &[u8]) -> (r: Option<usize>)
    ensures
        match r {
            Some(end) => first_line_end(bytes@) == Some(end as int) && 0 < end < bytes@.len(),
            None => first_line_end(bytes@) is None,
        },
{
    match first_terminal_text_line_boundary(bytes) {
        Some((_, end)) => if end < bytes.len() {
            Some(end)
        } else {
            None
        },
        None => None,
    }
}

} // verus!
