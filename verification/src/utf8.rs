//! The parts of UTF-8 that terminal scanning needs: how wide the character at
//! an offset is, and whether an offset lies inside one.

use vstd::prelude::*;

verus! {

/// How many bytes the character opened by `lead` takes; 0 where `lead` opens
/// no multibyte character.
pub open spec fn lead_width(lead: u8) -> int {
    if 0xc2 <= lead <= 0xdf {
        2
    } else if 0xe0 <= lead <= 0xef {
        3
    } else if 0xf0 <= lead <= 0xf4 {
        4
    } else {
        0
    }
}

pub open spec fn continuation(b: u8) -> bool {
    0x80 <= b <= 0xbf
}

/// Whether `second` may follow `lead`: the ranges leave out overlong forms,
/// surrogates and everything above U+10FFFF.
pub open spec fn second_fits(lead: u8, second: u8) -> bool {
    if lead == 0xe0 {
        0xa0 <= second <= 0xbf
    } else if lead == 0xed {
        0x80 <= second <= 0x9f
    } else if lead == 0xf0 {
        0x90 <= second <= 0xbf
    } else if lead == 0xf4 {
        0x80 <= second <= 0x8f
    } else {
        continuation(second)
    }
}

/// Width of the well-formed multibyte character at `i`, or 0 if none starts
/// there.
pub open spec fn char_width_at(s: Seq<u8>, i: int) -> int {
    let w = lead_width(s[i]);
    if w > 0 && i + w <= s.len() && second_fits(s[i], s[i + 1]) && (w >= 3 ==> continuation(
        s[i + 2],
    )) && (w >= 4 ==> continuation(s[i + 3])) {
        w
    } else {
        0
    }
}

/// Bytes `start..=i` open a character that the end of `s` cuts off and that
/// later bytes could still complete.
pub open spec fn open_prefix_covers(s: Seq<u8>, start: int, i: int) -> bool {
    let w = lead_width(s[start]);
    &&& w > 0
    &&& start + w > s.len()
    &&& second_fits(s[start], s[start + 1])
    &&& forall|k: int| start + 2 <= k <= i ==> continuation(#[trigger] s[k])
}

/// A character that starts at `start` reaches over offset `i`.
pub open spec fn char_covers(s: Seq<u8>, start: int, i: int) -> bool {
    char_width_at(s, start) > i - start || open_prefix_covers(s, start, i)
}

/// Offset `i` holds a later byte of a character, complete or cut off by the
/// end of `s`.
pub open spec fn inside_char(s: Seq<u8>, i: int) -> bool {
    exists|start: int| 0 <= start < i && i - 3 <= start && #[trigger] char_covers(s, start, i)
}

/// Start of the run of continuation bytes that ends at `end`.
pub open spec fn continuation_run_start(s: Seq<u8>, end: int) -> int
    decreases end,
{
    if 0 < end <= s.len() && continuation(s[end - 1]) {
        continuation_run_start(s, end - 1)
    } else {
        end
    }
}

/// Width announced by a lead byte, without regard to overlong or out-of-range
/// forms; 0 for a byte that is no lead byte.
pub open spec fn announced_width(lead: u8) -> int {
    if 0xc0 <= lead <= 0xdf {
        2
    } else if 0xe0 <= lead <= 0xef {
        3
    } else if 0xf0 <= lead <= 0xf7 {
        4
    } else {
        0
    }
}

/// Where a multibyte character that `s` ends in the middle of begins.
pub open spec fn cut_char_start(s: Seq<u8>) -> Option<int> {
    let run = continuation_run_start(s, s.len() as int);
    if run > 0 && s.len() - run + 1 < announced_width(s[run - 1]) {
        Some(run - 1)
    } else {
        None
    }
}

pub proof fn lemma_run_start(s: Seq<u8>, end: int)
    requires
        0 <= end <= s.len(),
    ensures
        0 <= continuation_run_start(s, end) <= end,
        forall|k: int|
            continuation_run_start(s, end) <= k < end ==> continuation(#[trigger] s[k]),
        continuation_run_start(s, end) > 0 ==> !continuation(
            s[continuation_run_start(s, end) - 1],
        ),
    decreases end,
{
    if end > 0 && continuation(s[end - 1]) {
        lemma_run_start(s, end - 1);
    }
}

/// A cut character begins inside the input and is never empty.
pub proof fn lemma_cut_char_in_range(s: Seq<u8>)
    ensures
        match cut_char_start(s) {
            Some(i) => 0 <= i < s.len() && s.len() - i <= 3,
            None => true,
        },
{
    lemma_run_start(s, s.len() as int);
}

pub fn valid_utf8_char_width_at(input: &[u8], idx: usize) -> (r: Option<usize>)
    requires
        idx < input@.len(),
    ensures
        match r {
            Some(w) => w == char_width_at(input@, idx as int) && 2 <= w <= 4 && idx + w
                <= input@.len(),
            None => char_width_at(input@, idx as int) == 0,
        },
{
    let lead = input[idx];
    let width: usize = if 0xc2 <= lead && lead <= 0xdf {
        2
    } else if 0xe0 <= lead && lead <= 0xef {
        3
    } else if 0xf0 <= lead && lead <= 0xf4 {
        4
    } else {
        return None;
    };
    if width > input.len() - idx {
        return None;
    }
    if !second_byte_fits(lead, input[idx + 1]) {
        return None;
    }
    if width >= 3 && !is_continuation_byte(input[idx + 2]) {
        return None;
    }
    if width >= 4 && !is_continuation_byte(input[idx + 3]) {
        return None;
    }
    Some(width)
}

pub fn is_continuation_byte(b: u8) -> (r: bool)
    ensures
        r == continuation(b),
{
    0x80 <= b && b <= 0xbf
}

pub fn second_byte_fits(lead: u8, second: u8) -> (r: bool)
    ensures
        r == second_fits(lead, second),
{
    if lead == 0xe0 {
        0xa0 <= second && second <= 0xbf
    } else if lead == 0xed {
        0x80 <= second && second <= 0x9f
    } else if lead == 0xf0 {
        0x90 <= second && second <= 0xbf
    } else if lead == 0xf4 {
        0x80 <= second && second <= 0x8f
    } else {
        is_continuation_byte(second)
    }
}

/// Whether `prefix`, shorter than `expected_width`, can still grow into a
/// well-formed character of that width.
pub fn utf8_prefix_can_be_completed(prefix: &[u8], expected_width: usize) -> (r: bool)
    ensures
        r == (2 <= prefix@.len() < expected_width && second_fits(prefix@[0], prefix@[1])
            && forall|k: int| 2 <= k < prefix@.len() ==> continuation(#[trigger] prefix@[k])),
{
    if prefix.len() >= expected_width || prefix.len() < 2 {
        return false;
    }
    if !second_byte_fits(prefix[0], prefix[1]) {
        return false;
    }
    let mut k: usize = 2;
    while k < prefix.len()
        invariant
            2 <= k <= prefix@.len(),
            forall|j: int| 2 <= j < k ==> continuation(#[trigger] prefix@[j]),
        decreases prefix@.len() - k,
    {
        if !is_continuation_byte(prefix[k]) {
            assert(!continuation(prefix@[k as int]));
            return false;
        }
        k = k + 1;
    }
    true
}

pub fn byte_is_inside_utf8_codepoint_or_prefix(bytes: &[u8], index: usize) -> (r: bool)
    requires
        index < bytes@.len(),
    ensures
        r == inside_char(bytes@, index as int),
{
    let search_start: usize = if index >= 3 {
        index - 3
    } else {
        0
    };
    let mut start: usize = search_start;
    while start < index
        invariant
            index < bytes@.len(),
            search_start <= start <= index,
            search_start == (if index >= 3 {
                index - 3
            } else {
                0
            }),
            forall|j: int|
                search_start <= j < start ==> !#[trigger] char_covers(bytes@, j, index as int),
        decreases index - start,
    {
        let ghost s = bytes@;
        let ghost i = index as int;
        if let Some(width) = valid_utf8_char_width_at(bytes, start) {
            if width > index - start {
                assert(char_covers(s, start as int, i));
                return true;
            }
        }
        let lead = bytes[start];
        let width: usize = if 0xc2 <= lead && lead <= 0xdf {
            2
        } else if 0xe0 <= lead && lead <= 0xef {
            3
        } else if 0xf0 <= lead && lead <= 0xf4 {
            4
        } else {
            0
        };
        if width > bytes.len() - start {
            let prefix = vstd::slice::slice_subrange(bytes, start, index + 1);
            let ghost p = prefix@;
            assert(forall|k: int| 0 <= k < p.len() ==> p[k] == s[start + k]);
            if utf8_prefix_can_be_completed(prefix, width) {
                assert forall|k: int| start + 2 <= k <= i implies continuation(#[trigger] s[k]) by {
                    assert(continuation(p[k - start]));
                }
                assert(open_prefix_covers(s, start as int, i));
                assert(char_covers(s, start as int, i));
                return true;
            }
            assert(!open_prefix_covers(s, start as int, i)) by {
                if open_prefix_covers(s, start as int, i) {
                    assert forall|k: int| 2 <= k < p.len() implies continuation(
                        #[trigger] p[k],
                    ) by {
                        assert(continuation(s[start + k]));
                    }
                }
            }
        }
        assert(!char_covers(s, start as int, i));
        start = start + 1;
    }
    false
}

/// If `bytes` ends partway through a multibyte character, the index of that
/// character's lead byte, so that the partial character can be carried to the
/// next chunk.
pub fn incomplete_utf8_start(bytes: &[u8]) -> (r: Option<usize>)
    ensures
        match r {
            Some(i) => cut_char_start(bytes@) == Some(i as int),
            None => cut_char_start(bytes@) is None,
        },
{
    let mut idx: usize = bytes.len();
    while idx > 0 && is_continuation_byte(bytes[idx - 1])
        invariant
            idx <= bytes@.len(),
            continuation_run_start(bytes@, idx as int) == continuation_run_start(
                bytes@,
                bytes@.len() as int,
            ),
        decreases idx,
    {
        idx = idx - 1;
    }
    if idx == 0 {
        return None;
    }
    let lead = bytes[idx - 1];
    let expected: usize = if 0xc0 <= lead && lead <= 0xdf {
        2
    } else if 0xe0 <= lead && lead <= 0xef {
        3
    } else if 0xf0 <= lead && lead <= 0xf7 {
        4
    } else {
        return None;
    };
    if bytes.len() - idx + 1 < expected {
        Some(idx - 1)
    } else {
        None
    }
}

/// Whether all of `bytes` is the beginning of one character.
pub fn is_incomplete_utf8_prefix(bytes: &[u8]) -> (r: bool)
    ensures
        r == (cut_char_start(bytes@) == Some(0int)),
{
    match incomplete_utf8_start(bytes) {
        Some(i) => i == 0,
        None => false,
    }
}

} // verus!
