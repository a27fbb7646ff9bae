//! Open control sequences: which control the end of input leaves unfinished,
//! how a cancelled control restarts at another one, how unfinished controls
//! are made harmless, and how control strings are dropped.

use vstd::prelude::*;

use crate::controls::{
    ansi_sequence_end, c1_code_at, c1_control_at, c1_string_escape_end, c1_width_at, cancels,
    control_at, is_control_at, lemma_string_end, opens_c1_string, opens_esc_string, string_end,
    string_end_or_all, string_terminator_end, text_unit_end, wide_terminator_at,
};
use crate::utf8::{
    byte_is_inside_utf8_codepoint_or_prefix, char_width_at, cut_char_start,
    incomplete_utf8_start, inside_char, lemma_cut_char_in_range, valid_utf8_char_width_at,
};

verus! {

/// Longest control string that is kept while its terminator is outstanding.
pub const MAX_INCOMPLETE_ESCAPE_BYTES: usize = 16384;

/// Longest other control that is kept while its end is outstanding.
pub const MAX_INCOMPLETE_NON_STRING_ESCAPE_BYTES: usize = 1024;

/// The introducer of a control string, with the width of its C1 form.
#[derive(Clone, Copy, Debug, PartialEq, Eq, Structural)]
pub enum StringControlKind {
    EscOsc,
    EscString(u8),
    C1Osc(usize),
    C1String(u8, usize),
}

/// The control string introducer at `i`, if one stands there.
pub open spec fn string_kind_at(s: Seq<u8>, i: int) -> Option<StringControlKind> {
    if !(0 <= i < s.len()) {
        None
    } else if s[i] == 0x1b {
        if i + 1 >= s.len() {
            None
        } else if s[i + 1] == 0x5d {
            Some(StringControlKind::EscOsc)
        } else if opens_esc_string(s[i + 1]) {
            Some(StringControlKind::EscString(s[i + 1]))
        } else {
            None
        }
    } else if c1_width_at(s, i) == 0 {
        None
    } else if c1_code_at(s, i) == 0x9d {
        Some(StringControlKind::C1Osc(c1_width_at(s, i) as usize))
    } else if opens_c1_string(c1_code_at(s, i)) {
        Some(StringControlKind::C1String(c1_code_at(s, i), c1_width_at(s, i) as usize))
    } else {
        None
    }
}

impl StringControlKind {
    /// Bytes of the introducer.
    pub open spec fn width(self) -> int {
        match self {
            StringControlKind::EscOsc => 2,
            StringControlKind::EscString(_) => 2,
            StringControlKind::C1Osc(w) => w as int,
            StringControlKind::C1String(_, w) => w as int,
        }
    }

    /// Whether BEL ends the string: only OSC strings.
    pub open spec fn bel(self) -> bool {
        self is EscOsc || self is C1Osc
    }

    pub open spec fn is_c1(self) -> bool {
        self is C1Osc || self is C1String
    }

    /// The introducer at `start` with the offset of the payload behind it.
    pub fn at(bytes: &[u8], start: usize) -> (r: Option<(StringControlKind, usize)>)
        ensures
            match r {
                Some((kind, payload)) => string_kind_at(bytes@, start as int) == Some(kind)
                    && payload == start + kind.width() && start < payload <= bytes@.len(),
                None => string_kind_at(bytes@, start as int) is None,
            },
    {
        let len = bytes.len();
        if start >= len {
            return None;
        }
        if bytes[start] == 0x1b {
            if start + 1 >= len {
                return None;
            }
            let byte = bytes[start + 1];
            if byte == 0x5d {
                return Some((StringControlKind::EscOsc, start + 2));
            }
            if byte == 0x50 || byte == 0x58 || byte == 0x5e || byte == 0x5f {
                return Some((StringControlKind::EscString(byte), start + 2));
            }
            return None;
        }
        match c1_control_at(bytes, start) {
            Some((code, width)) => {
                if code == 0x9d {
                    Some((StringControlKind::C1Osc(width), start + width))
                } else if code == 0x90 || code == 0x98 || code == 0x9e || code == 0x9f {
                    Some((StringControlKind::C1String(code, width), start + width))
                } else {
                    None
                }
            },
            None => None,
        }
    }

    pub fn allows_bel(self) -> (r: bool)
        ensures
            r == self.bel(),
    {
        match self {
            StringControlKind::EscOsc => true,
            StringControlKind::C1Osc(_) => true,
            _ => false,
        }
    }

    /// Whether this introducer stands at `start`.
    pub fn matches_at(self, bytes: &[u8], start: usize) -> (r: bool)
        ensures
            r == match self {
                StringControlKind::EscOsc => start + 1 < bytes@.len() && bytes@[start as int]
                    == 0x1b && bytes@[start + 1] == 0x5d,
                StringControlKind::EscString(byte) => start + 1 < bytes@.len()
                    && bytes@[start as int] == 0x1b && bytes@[start + 1] == byte,
                StringControlKind::C1Osc(width) => c1_width_at(bytes@, start as int) == width
                    && width > 0 && c1_code_at(bytes@, start as int) == 0x9d,
                StringControlKind::C1String(byte, width) => c1_width_at(bytes@, start as int)
                    == width && width > 0 && c1_code_at(bytes@, start as int) == byte,
            },
    {
        let len = bytes.len();
        match self {
            StringControlKind::EscOsc => start < len && start + 1 < len && bytes[start] == 0x1b
                && bytes[start + 1] == 0x5d,
            StringControlKind::EscString(byte) => start < len && start + 1 < len && bytes[start]
                == 0x1b && bytes[start + 1] == byte,
            StringControlKind::C1Osc(width) => match c1_control_at(bytes, start) {
                Some((code, w)) => w == width && code == 0x9d,
                None => false,
            },
            StringControlKind::C1String(byte, width) => match c1_control_at(bytes, start) {
                Some((code, w)) => w == width && code == byte,
                None => false,
            },
        }
    }

    /// End of the control string that this introducer opens at `start`; the
    /// end of input where it is left open.
    pub fn sequence_end(self, bytes: &[u8], start: usize) -> (r: usize)
        requires
            string_kind_at(bytes@, start as int) == Some(self),
        ensures
            r == string_end_or_all(bytes@, start + self.width(), self.bel()),
            start < r <= bytes@.len(),
    {
        proof {
            lemma_string_end(bytes@, start + self.width(), self.bel());
        }
        match self {
            StringControlKind::EscOsc => ansi_sequence_end(bytes, start),
            StringControlKind::EscString(_) => ansi_sequence_end(bytes, start),
            StringControlKind::C1Osc(width) => c1_string_escape_end(bytes, start, 0x9d, width),
            StringControlKind::C1String(control, width) => c1_string_escape_end(
                bytes,
                start,
                control,
                width,
            ),
        }
    }
}

/// How the control sequence at some offset goes on.
pub enum Scan {
    /// It ends before this offset.
    Complete(int),
    /// It is cancelled, and the control at this offset begins anew.
    Restart(int),
    /// The input ends first, within the limit for open controls.
    Pending,
    /// The input ends first, beyond that limit.
    Oversized,
}

/// The executable counterpart of [`Scan`].
#[derive(Clone, Copy, Debug, PartialEq, Eq)]
pub enum EscapeScan {
    Complete(usize),
    Restart(usize),
    IncompleteWithinLimit,
    IncompleteOversized,
}

impl View for EscapeScan {
    type V = Scan;

    open spec fn view(&self) -> Scan {
        match self {
            EscapeScan::Complete(end) => Scan::Complete(*end as int),
            EscapeScan::Restart(at) => Scan::Restart(*at as int),
            EscapeScan::IncompleteWithinLimit => Scan::Pending,
            EscapeScan::IncompleteOversized => Scan::Oversized,
        }
    }
}

/// The verdict on a control that opened at `start` and that the input cuts
/// off.
pub open spec fn open_scan(s: Seq<u8>, start: int, limit: int) -> Scan {
    if s.len() - start > limit {
        Scan::Oversized
    } else {
        Scan::Pending
    }
}

/// A CSI sequence opened at `start`, from `i` on.
pub open spec fn csi_scan(s: Seq<u8>, start: int, i: int) -> Scan
    decreases s.len() - i,
{
    if !(0 <= i < s.len()) {
        open_scan(s, start, MAX_INCOMPLETE_NON_STRING_ESCAPE_BYTES as int)
    } else if control_at(s, i) {
        Scan::Restart(i)
    } else if char_width_at(s, i) > 0 {
        csi_scan(s, start, i + char_width_at(s, i))
    } else if cancels(s[i]) || 0x40 <= s[i] <= 0x7e {
        Scan::Complete(i + 1)
    } else {
        csi_scan(s, start, i + 1)
    }
}

/// A control string opened at `start`, from `i` on.
pub open spec fn string_scan(s: Seq<u8>, start: int, i: int, bel: bool) -> Scan
    decreases s.len() - i,
{
    if !(0 <= i < s.len()) {
        open_scan(s, start, MAX_INCOMPLETE_ESCAPE_BYTES as int)
    } else if i - start > MAX_INCOMPLETE_ESCAPE_BYTES {
        Scan::Oversized
    } else if wide_terminator_at(s, i) {
        Scan::Complete(i + 2)
    } else if char_width_at(s, i) > 0 {
        string_scan(s, start, i + char_width_at(s, i), bel)
    } else if (bel && s[i] == 0x07) || cancels(s[i]) {
        Scan::Complete(i + 1)
    } else if s[i] == 0x9c && !inside_char(s, i) {
        Scan::Complete(i + 1)
    } else if s[i] == 0x1b && i + 1 < s.len() && s[i + 1] == 0x5c {
        Scan::Complete(i + 2)
    } else {
        string_scan(s, start, i + 1, bel)
    }
}

/// A single shift opened at `start`, from `i` on: it takes one character.
pub open spec fn shift_scan(s: Seq<u8>, start: int, i: int) -> Scan
    decreases s.len() - i,
{
    let limit = MAX_INCOMPLETE_NON_STRING_ESCAPE_BYTES as int;
    if !(0 <= i < s.len()) {
        open_scan(s, start, limit)
    } else if control_at(s, i) {
        Scan::Restart(i)
    } else if char_width_at(s, i) > 0 {
        Scan::Complete(i + char_width_at(s, i))
    } else if cut_char_start(s.subrange(i, s.len() as int)) == Some(0int) {
        open_scan(s, start, limit)
    } else if cancels(s[i]) {
        Scan::Complete(i + 1)
    } else if s[i] <= 0x1f || s[i] == 0x7f {
        shift_scan(s, start, i + 1)
    } else {
        Scan::Complete(i + 1)
    }
}

/// An ESC sequence with intermediate bytes opened at `start`, from `i` on.
pub open spec fn intermediate_scan(s: Seq<u8>, start: int, i: int) -> Scan
    decreases s.len() - i,
{
    if !(0 <= i < s.len()) {
        open_scan(s, start, MAX_INCOMPLETE_NON_STRING_ESCAPE_BYTES as int)
    } else if control_at(s, i) {
        Scan::Restart(i)
    } else if cancels(s[i]) || s[i] >= 0x30 && s[i] != 0x7f {
        Scan::Complete(i + 1)
    } else {
        intermediate_scan(s, start, i + 1)
    }
}

/// The control sequence at `i`.
pub open spec fn scan_at(s: Seq<u8>, i: int) -> Scan {
    if s[i] != 0x1b {
        let w = c1_width_at(s, i);
        let code = c1_code_at(s, i);
        if w == 0 {
            Scan::Complete(i + 1)
        } else if code == 0x8e || code == 0x8f {
            shift_scan(s, i, i + w)
        } else if code == 0x9b {
            csi_scan(s, i, i + w)
        } else if code == 0x9d {
            string_scan(s, i, i + w, true)
        } else if opens_c1_string(code) {
            string_scan(s, i, i + w, false)
        } else {
            Scan::Complete(i + w)
        }
    } else if i + 1 >= s.len() {
        open_scan(s, i, MAX_INCOMPLETE_NON_STRING_ESCAPE_BYTES as int)
    } else if control_at(s, i + 1) {
        Scan::Restart(i + 1)
    } else if s[i + 1] == 0x5b {
        csi_scan(s, i, i + 2)
    } else if s[i + 1] == 0x5d {
        string_scan(s, i, i + 2, true)
    } else if opens_esc_string(s[i + 1]) {
        string_scan(s, i, i + 2, false)
    } else if s[i + 1] == 0x4e || s[i + 1] == 0x4f {
        shift_scan(s, i, i + 2)
    } else if 0x20 <= s[i + 1] <= 0x2f {
        intermediate_scan(s, i, i + 1)
    } else {
        Scan::Complete(i + 2)
    }
}

/// Where a scan that began before `i` in `s` may lead.
pub open spec fn scan_in_range(s: Seq<u8>, scan: Scan, i: int) -> bool {
    match scan {
        Scan::Complete(end) => i < end <= s.len(),
        Scan::Restart(at) => i <= at < s.len() && control_at(s, at),
        _ => true,
    }
}

pub proof fn lemma_csi_scan(s: Seq<u8>, start: int, i: int)
    requires
        0 <= i <= s.len(),
    ensures
        scan_in_range(s, csi_scan(s, start, i), i),
    decreases s.len() - i,
{
    if i < s.len() && !control_at(s, i) {
        if char_width_at(s, i) > 0 {
            lemma_csi_scan(s, start, i + char_width_at(s, i));
        } else {
            lemma_csi_scan(s, start, i + 1);
        }
    }
}

proof fn lemma_string_scan(s: Seq<u8>, start: int, i: int, bel: bool)
    requires
        0 <= i <= s.len(),
    ensures
        scan_in_range(s, string_scan(s, start, i, bel), i),
        !(string_scan(s, start, i, bel) is Restart),
    decreases s.len() - i,
{
    if i < s.len() && !wide_terminator_at(s, i) {
        if char_width_at(s, i) > 0 {
            lemma_string_scan(s, start, i + char_width_at(s, i), bel);
        } else {
            lemma_string_scan(s, start, i + 1, bel);
        }
    }
}

pub proof fn lemma_shift_scan(s: Seq<u8>, start: int, i: int)
    requires
        0 <= i <= s.len(),
    ensures
        scan_in_range(s, shift_scan(s, start, i), i),
    decreases s.len() - i,
{
    if i < s.len() {
        lemma_shift_scan(s, start, i + 1);
    }
}

pub proof fn lemma_intermediate_scan(s: Seq<u8>, start: int, i: int)
    requires
        0 <= i <= s.len(),
    ensures
        scan_in_range(s, intermediate_scan(s, start, i), i),
    decreases s.len() - i,
{
    if i < s.len() {
        lemma_intermediate_scan(s, start, i + 1);
    }
}

/// A control sequence that completes or restarts does so behind its first
/// byte and within the input, and a restart is at a control.
pub proof fn lemma_scan_at(s: Seq<u8>, i: int)
    requires
        0 <= i < s.len(),
    ensures
        scan_in_range(s, scan_at(s, i), i + 1) || scan_at(s, i) == Scan::Complete(i + 1),
        match scan_at(s, i) {
            Scan::Complete(end) => i < end <= s.len(),
            Scan::Restart(at) => i < at < s.len() && control_at(s, at),
            _ => true,
        },
{
    let w = c1_width_at(s, i);
    if s[i] != 0x1b {
        lemma_shift_scan(s, i, i + w);
        lemma_csi_scan(s, i, i + w);
        lemma_string_scan(s, i, i + w, true);
        lemma_string_scan(s, i, i + w, false);
    } else if i + 1 < s.len() {
        lemma_shift_scan(s, i, i + 2);
        lemma_csi_scan(s, i, i + 2);
        lemma_string_scan(s, i, i + 2, true);
        lemma_string_scan(s, i, i + 2, false);
        lemma_intermediate_scan(s, i, i + 1);
    }
}

proof fn lemma_short_csi(s: Seq<u8>, start: int, i: int)
    requires
        s.len() <= MAX_INCOMPLETE_NON_STRING_ESCAPE_BYTES,
        0 <= start,
    ensures
        !(csi_scan(s, start, i) is Oversized),
    decreases s.len() - i,
{
    if 0 <= i < s.len() && !control_at(s, i) {
        if char_width_at(s, i) > 0 {
            lemma_short_csi(s, start, i + char_width_at(s, i));
        } else {
            lemma_short_csi(s, start, i + 1);
        }
    }
}

proof fn lemma_short_string(s: Seq<u8>, start: int, i: int, bel: bool)
    requires
        s.len() <= MAX_INCOMPLETE_NON_STRING_ESCAPE_BYTES,
        0 <= start,
    ensures
        !(string_scan(s, start, i, bel) is Oversized),
    decreases s.len() - i,
{
    if 0 <= i < s.len() {
        if char_width_at(s, i) > 0 {
            lemma_short_string(s, start, i + char_width_at(s, i), bel);
        } else {
            lemma_short_string(s, start, i + 1, bel);
        }
    }
}

proof fn lemma_short_shift(s: Seq<u8>, start: int, i: int)
    requires
        s.len() <= MAX_INCOMPLETE_NON_STRING_ESCAPE_BYTES,
        0 <= start,
    ensures
        !(shift_scan(s, start, i) is Oversized),
    decreases s.len() - i,
{
    if 0 <= i < s.len() {
        lemma_short_shift(s, start, i + 1);
    }
}

proof fn lemma_short_intermediate(s: Seq<u8>, start: int, i: int)
    requires
        s.len() <= MAX_INCOMPLETE_NON_STRING_ESCAPE_BYTES,
        0 <= start,
    ensures
        !(intermediate_scan(s, start, i) is Oversized),
    decreases s.len() - i,
{
    if 0 <= i < s.len() {
        lemma_short_intermediate(s, start, i + 1);
    }
}

/// In input within the smaller limit no control is too long.
pub proof fn lemma_short_scan(s: Seq<u8>, i: int)
    requires
        s.len() <= MAX_INCOMPLETE_NON_STRING_ESCAPE_BYTES,
        0 <= i,
    ensures
        !(scan_at(s, i) is Oversized),
{
    let w = c1_width_at(s, i);
    lemma_short_shift(s, i, i + w);
    lemma_short_csi(s, i, i + w);
    lemma_short_string(s, i, i + w, true);
    lemma_short_string(s, i, i + w, false);
    lemma_short_shift(s, i, i + 2);
    lemma_short_csi(s, i, i + 2);
    lemma_short_string(s, i, i + 2, true);
    lemma_short_string(s, i, i + 2, false);
    lemma_short_intermediate(s, i, i + 1);
}

fn incomplete_escape_scan_result(bytes: &[u8], start: usize, limit: usize) -> (r: EscapeScan)
    requires
        start <= bytes@.len(),
    ensures
        r@ == open_scan(bytes@, start as int, limit as int),
{
    if bytes.len() - start > limit {
        EscapeScan::IncompleteOversized
    } else {
        EscapeScan::IncompleteWithinLimit
    }
}

fn scan_csi_for_neutralization(bytes: &[u8], start: usize, from: usize) -> (r: EscapeScan)
    requires
        start <= from <= bytes@.len(),
    ensures
        r@ == csi_scan(bytes@, start as int, from as int),
{
    let mut idx: usize = from;
    while idx < bytes.len()
        invariant
            start <= from <= idx <= bytes@.len(),
            csi_scan(bytes@, start as int, from as int) == csi_scan(
                bytes@,
                start as int,
                idx as int,
            ),
        decreases bytes@.len() - idx,
    {
        if is_control_at(bytes, idx) {
            return EscapeScan::Restart(idx);
        }
        if let Some(width) = valid_utf8_char_width_at(bytes, idx) {
            idx = idx + width;
            continue;
        }
        let byte = bytes[idx];
        if byte == 0x18 || byte == 0x1a || (0x40 <= byte && byte <= 0x7e) {
            return EscapeScan::Complete(idx + 1);
        }
        idx = idx + 1;
    }
    incomplete_escape_scan_result(bytes, start, MAX_INCOMPLETE_NON_STRING_ESCAPE_BYTES)
}

fn scan_string_for_neutralization(
    bytes: &[u8],
    start: usize,
    from: usize,
    allows_bel: bool,
) -> (r: EscapeScan)
    requires
        start <= from <= bytes@.len(),
    ensures
        r@ == string_scan(bytes@, start as int, from as int, allows_bel),
{
    let mut idx: usize = from;
    while idx < bytes.len()
        invariant
            start <= from <= idx <= bytes@.len(),
            string_scan(bytes@, start as int, from as int, allows_bel) == string_scan(
                bytes@,
                start as int,
                idx as int,
                allows_bel,
            ),
        decreases bytes@.len() - idx,
    {
        if idx - start > MAX_INCOMPLETE_ESCAPE_BYTES {
            return EscapeScan::IncompleteOversized;
        }
        if let Some((code, width)) = c1_control_at(bytes, idx) {
            if code == 0x9c && width == 2 {
                return EscapeScan::Complete(idx + 2);
            }
        }
        if let Some(width) = valid_utf8_char_width_at(bytes, idx) {
            idx = idx + width;
            continue;
        }
        let byte = bytes[idx];
        if (allows_bel && byte == 0x07) || byte == 0x18 || byte == 0x1a {
            return EscapeScan::Complete(idx + 1);
        }
        if byte == 0x9c && !byte_is_inside_utf8_codepoint_or_prefix(bytes, idx) {
            return EscapeScan::Complete(idx + 1);
        }
        if byte == 0x1b && idx + 1 < bytes.len() && bytes[idx + 1] == 0x5c {
            return EscapeScan::Complete(idx + 2);
        }
        idx = idx + 1;
    }
    incomplete_escape_scan_result(bytes, start, MAX_INCOMPLETE_ESCAPE_BYTES)
}

fn scan_single_shift_for_neutralization(bytes: &[u8], start: usize, from: usize) -> (r: EscapeScan)
    requires
        start <= from <= bytes@.len(),
    ensures
        r@ == shift_scan(bytes@, start as int, from as int),
{
    let mut idx: usize = from;
    while idx < bytes.len()
        invariant
            start <= from <= idx <= bytes@.len(),
            shift_scan(bytes@, start as int, from as int) == shift_scan(
                bytes@,
                start as int,
                idx as int,
            ),
        decreases bytes@.len() - idx,
    {
        if is_control_at(bytes, idx) {
            return EscapeScan::Restart(idx);
        }
        if let Some(width) = valid_utf8_char_width_at(bytes, idx) {
            return EscapeScan::Complete(idx + width);
        }
        let rest = vstd::slice::slice_subrange(bytes, idx, bytes.len());
        if let Some(cut) = incomplete_utf8_start(rest) {
            if cut == 0 {
                return incomplete_escape_scan_result(
                    bytes,
                    start,
                    MAX_INCOMPLETE_NON_STRING_ESCAPE_BYTES,
                );
            }
        }
        let byte = bytes[idx];
        if byte == 0x18 || byte == 0x1a {
            return EscapeScan::Complete(idx + 1);
        }
        if !(byte <= 0x1f || byte == 0x7f) {
            return EscapeScan::Complete(idx + 1);
        }
        idx = idx + 1;
    }
    incomplete_escape_scan_result(bytes, start, MAX_INCOMPLETE_NON_STRING_ESCAPE_BYTES)
}

fn scan_esc_intermediate_for_neutralization(bytes: &[u8], start: usize) -> (r: EscapeScan)
    requires
        start < bytes@.len(),
    ensures
        r@ == intermediate_scan(bytes@, start as int, start + 1),
{
    let len = bytes.len();
    let mut idx: usize = start + 1;
    while idx < len
        invariant
            len == bytes@.len(),
            start + 1 <= idx <= len,
            intermediate_scan(bytes@, start as int, start + 1) == intermediate_scan(
                bytes@,
                start as int,
                idx as int,
            ),
        decreases len - idx,
    {
        if is_control_at(bytes, idx) {
            return EscapeScan::Restart(idx);
        }
        let byte = bytes[idx];
        if byte == 0x18 || byte == 0x1a || (byte >= 0x30 && byte != 0x7f) {
            return EscapeScan::Complete(idx + 1);
        }
        idx = idx + 1;
    }
    incomplete_escape_scan_result(bytes, start, MAX_INCOMPLETE_NON_STRING_ESCAPE_BYTES)
}

/// Follows the control sequence at `start`.
pub fn scan_escape_for_neutralization(bytes: &[u8], start: usize) -> (r: EscapeScan)
    requires
        start < bytes@.len(),
    ensures
        r@ == scan_at(bytes@, start as int),
        match r {
            EscapeScan::Complete(end) => start < end <= bytes@.len(),
            EscapeScan::Restart(at) => start < at < bytes@.len(),
            _ => true,
        },
{
    proof {
        lemma_scan_at(bytes@, start as int);
    }
    let len = bytes.len();
    if bytes[start] != 0x1b {
        let (control, width) = match c1_control_at(bytes, start) {
            Some(found) => found,
            None => return EscapeScan::Complete(start + 1),
        };
        if control == 0x8e || control == 0x8f {
            return scan_single_shift_for_neutralization(bytes, start, start + width);
        }
        if control == 0x9b {
            return scan_csi_for_neutralization(bytes, start, start + width);
        }
        if control == 0x9d {
            return scan_string_for_neutralization(bytes, start, start + width, true);
        }
        if control == 0x90 || control == 0x98 || control == 0x9e || control == 0x9f {
            return scan_string_for_neutralization(bytes, start, start + width, false);
        }
        return EscapeScan::Complete(start + width);
    }
    if start + 1 >= len {
        return incomplete_escape_scan_result(bytes, start, MAX_INCOMPLETE_NON_STRING_ESCAPE_BYTES);
    }
    if is_control_at(bytes, start + 1) {
        return EscapeScan::Restart(start + 1);
    }
    let byte = bytes[start + 1];
    if byte == 0x5b {
        scan_csi_for_neutralization(bytes, start, start + 2)
    } else if byte == 0x5d {
        scan_string_for_neutralization(bytes, start, start + 2, true)
    } else if byte == 0x50 || byte == 0x58 || byte == 0x5e || byte == 0x5f {
        scan_string_for_neutralization(bytes, start, start + 2, false)
    } else if byte == 0x4e || byte == 0x4f {
        scan_single_shift_for_neutralization(bytes, start, start + 2)
    } else if 0x20 <= byte && byte <= 0x2f {
        scan_esc_intermediate_for_neutralization(bytes, start)
    } else {
        EscapeScan::Complete(start + 2)
    }
}

/// C1 controls that open a longer sequence: the single shifts, CSI and the
/// control strings.
pub open spec fn stateful_c1(code: u8) -> bool {
    code == 0x8e || code == 0x8f || code == 0x9b || code == 0x9d || opens_c1_string(code)
}

/// The C1 form at `i` is a control of its own and no part of a character.
pub open spec fn free_c1_at(s: Seq<u8>, i: int) -> bool {
    c1_width_at(s, i) == 2 || (c1_width_at(s, i) == 1 && !inside_char(s, i))
}

/// The first offset at or behind `i` that opens a control sequence of more
/// than one byte.
pub open spec fn stateful_from(s: Seq<u8>, i: int) -> Option<int>
    decreases s.len() - i,
{
    if !(0 <= i < s.len()) {
        None
    } else if s[i] == 0x1b {
        Some(i)
    } else if free_c1_at(s, i) {
        if stateful_c1(c1_code_at(s, i)) {
            Some(i)
        } else {
            stateful_from(s, i + c1_width_at(s, i))
        }
    } else {
        stateful_from(s, text_unit_end(s, i))
    }
}

pub proof fn lemma_stateful_from(s: Seq<u8>, i: int)
    requires
        0 <= i <= s.len(),
    ensures
        match stateful_from(s, i) {
            Some(at) => i <= at < s.len() && control_at(s, at),
            None => true,
        },
    decreases s.len() - i,
{
    if i < s.len() && s[i] != 0x1b {
        if free_c1_at(s, i) {
            lemma_stateful_from(s, i + c1_width_at(s, i));
        } else {
            lemma_stateful_from(s, text_unit_end(s, i));
        }
    }
}

fn is_stateful_c1_start(byte: u8) -> (r: bool)
    ensures
        r == stateful_c1(byte),
{
    byte == 0x8e || byte == 0x8f || byte == 0x9b || byte == 0x9d || byte == 0x90 || byte == 0x98
        || byte == 0x9e || byte == 0x9f
}

pub fn next_stateful_control_start(input: &[u8], from: usize) -> (r: Option<usize>)
    requires
        from <= input@.len(),
    ensures
        match r {
            Some(at) => stateful_from(input@, from as int) == Some(at as int) && from <= at
                < input@.len(),
            None => stateful_from(input@, from as int) is None,
        },
{
    proof {
        lemma_stateful_from(input@, from as int);
    }
    let mut start: usize = from;
    while start < input.len()
        invariant
            from <= start <= input@.len(),
            stateful_from(input@, from as int) == stateful_from(input@, start as int),
        decreases input@.len() - start,
    {
        if input[start] == 0x1b {
            return Some(start);
        }
        if let Some((control, width)) = c1_control_at(input, start) {
            if width == 2 || !byte_is_inside_utf8_codepoint_or_prefix(input, start) {
                if is_stateful_c1_start(control) {
                    return Some(start);
                }
                start = start + width;
                continue;
            }
        }
        if let Some(width) = valid_utf8_char_width_at(input, start) {
            start = start + width;
        } else {
            start = start + 1;
        }
    }
    None
}

/// Root of the chain of cancelled controls that reaches `start`, where `root`
/// is the root of the chain that reached `i`.
pub open spec fn chain_root(root: Option<int>, i: int, start: int) -> int {
    if root is Some && start == i {
        root->Some_0
    } else {
        start
    }
}

/// From `i` on, where the first control begins that the end of `s` leaves
/// open within its limit. A control reached through cancelled ones counts
/// from the first of them.
pub open spec fn open_from(s: Seq<u8>, i: int, root: Option<int>) -> Option<int>
    decreases s.len() - i,
{
    if !(0 <= i < s.len()) {
        None
    } else {
        proof {
            lemma_stateful_from(s, i);
        }
        match stateful_from(s, i) {
            None => None,
            Some(start) => {
                proof {
                    lemma_scan_at(s, start);
                }
                match scan_at(s, start) {
                    Scan::Complete(end) => open_from(s, end, None),
                    Scan::Restart(at) => open_from(s, at, Some(chain_root(root, i, start))),
                    Scan::Pending => Some(chain_root(root, i, start)),
                    Scan::Oversized => None,
                }
            },
        }
    }
}

/// Where the control begins that the end of `s` leaves open.
pub open spec fn open_control(s: Seq<u8>) -> Option<int> {
    open_from(s, 0, None)
}

pub proof fn lemma_open_from(s: Seq<u8>, i: int, root: Option<int>)
    requires
        0 <= i <= s.len(),
        root is Some ==> 0 <= root->Some_0 < s.len() && control_at(s, root->Some_0),
    ensures
        match open_from(s, i, root) {
            Some(at) => 0 <= at < s.len() && control_at(s, at),
            None => true,
        },
    decreases s.len() - i,
{
    if i < s.len() {
        lemma_stateful_from(s, i);
        if let Some(start) = stateful_from(s, i) {
            lemma_scan_at(s, start);
            match scan_at(s, start) {
                Scan::Complete(end) => lemma_open_from(s, end, None),
                Scan::Restart(at) => lemma_open_from(s, at, Some(chain_root(root, i, start))),
                _ => {},
            }
        }
    }
}

/// An open control begins within the input, at a control.
pub proof fn lemma_open_control(s: Seq<u8>)
    ensures
        match open_control(s) {
            Some(at) => 0 <= at < s.len() && control_at(s, at),
            None => true,
        },
{
    lemma_open_from(s, 0, None);
}

/// Start of the first top-level control sequence that is still open at the
/// end of `bytes`. The payload of a control string is skipped as a whole, so
/// an ESC or C1 byte in it is not taken for a newer control.
pub fn incomplete_top_level_escape_start(bytes: &[u8]) -> (r: Option<usize>)
    ensures
        match r {
            Some(at) => open_control(bytes@) == Some(at as int) && at < bytes@.len(),
            None => open_control(bytes@) is None,
        },
{
    let mut idx: usize = 0;
    let mut cancellation_root: Option<usize> = None;
    let ghost s = bytes@;
    proof {
        lemma_open_control(s);
    }
    while idx < bytes.len()
        invariant
            s == bytes@,
            idx <= s.len(),
            open_control(s) is Some ==> 0 <= open_control(s)->Some_0 < s.len(),
            open_control(s) == open_from(
                s,
                idx as int,
                match cancellation_root {
                    Some(root) => Some(root as int),
                    None => None,
                },
            ),
        decreases s.len() - idx,
    {
        let start = match next_stateful_control_start(bytes, idx) {
            Some(start) => start,
            None => return None,
        };
        if start > idx {
            cancellation_root = None;
        }
        let root: usize = match cancellation_root {
            Some(root) => root,
            None => start,
        };
        match scan_escape_for_neutralization(bytes, start) {
            EscapeScan::Complete(end) => {
                cancellation_root = None;
                idx = end;
            },
            EscapeScan::Restart(restart) => {
                cancellation_root = Some(root);
                idx = restart;
            },
            EscapeScan::IncompleteWithinLimit => {
                return Some(root);
            },
            EscapeScan::IncompleteOversized => {
                return None;
            },
        }
    }
    None
}

/// The last offset before `end` at which a C1 control string begins that is
/// no part of a character.
pub open spec fn last_c1_string(s: Seq<u8>, end: int) -> Option<int>
    decreases end,
{
    if end <= 0 {
        None
    } else if string_kind_at(s, end - 1) matches Some(kind) && kind.is_c1() && !(kind.width() == 1
        && inside_char(s, end - 1)) {
        Some(end - 1)
    } else {
        last_c1_string(s, end - 1)
    }
}

/// The C1 control string at `i` has no terminator, and is not oversized.
pub open spec fn c1_string_open_at(s: Seq<u8>, i: int) -> bool {
    &&& s.len() - i <= MAX_INCOMPLETE_ESCAPE_BYTES
    &&& string_kind_at(s, i) matches Some(kind) && kind.is_c1() && string_end(
        s,
        i + kind.width(),
        kind.bel(),
    ) is None
}

/// Start of the last C1 control string of `s`, if it is open.
pub open spec fn open_c1_string(s: Seq<u8>) -> Option<int> {
    match last_c1_string(s, s.len() as int) {
        Some(at) => if c1_string_open_at(s, at) {
            Some(at)
        } else {
            None
        },
        None => None,
    }
}

proof fn lemma_last_c1_string(s: Seq<u8>, end: int)
    requires
        0 <= end <= s.len(),
    ensures
        match last_c1_string(s, end) {
            Some(at) => 0 <= at < end,
            None => true,
        },
    decreases end,
{
    if end > 0 {
        lemma_last_c1_string(s, end - 1);
    }
}

fn c1_string_escape_is_incomplete_at(bytes: &[u8], start: usize) -> (r: bool)
    requires
        start <= bytes@.len(),
    ensures
        r == c1_string_open_at(bytes@, start as int),
{
    if bytes.len() - start > MAX_INCOMPLETE_ESCAPE_BYTES {
        return false;
    }
    match StringControlKind::at(bytes, start) {
        Some((kind, payload)) => match kind {
            StringControlKind::C1Osc(_) => string_terminator_end(bytes, payload, true).is_none(),
            StringControlKind::C1String(_, _) => string_terminator_end(
                bytes,
                payload,
                false,
            ).is_none(),
            _ => false,
        },
        None => false,
    }
}

fn incomplete_c1_string_escape_start(bytes: &[u8]) -> (r: Option<usize>)
    ensures
        match r {
            Some(at) => open_c1_string(bytes@) == Some(at as int) && at < bytes@.len(),
            None => open_c1_string(bytes@) is None,
        },
{
    let mut end: usize = bytes.len();
    while end > 0
        invariant
            end <= bytes@.len(),
            last_c1_string(bytes@, bytes@.len() as int) == last_c1_string(bytes@, end as int),
        decreases end,
    {
        let start: usize = end - 1;
        if let Some((kind, _payload)) = StringControlKind::at(bytes, start) {
            let width: usize = match kind {
                StringControlKind::C1Osc(w) => w,
                StringControlKind::C1String(_, w) => w,
                _ => 0,
            };
            if width > 0 && !(width == 1 && byte_is_inside_utf8_codepoint_or_prefix(bytes, start)) {
                return if c1_string_escape_is_incomplete_at(bytes, start) {
                    Some(start)
                } else {
                    None
                };
            }
        }
        end = start;
    }
    None
}

/// `i`, or the length of `s` where there is none.
pub open spec fn or_all(s: Seq<u8>, i: Option<int>) -> int {
    match i {
        Some(i) => i,
        None => s.len() as int,
    }
}

pub open spec fn least(a: int, b: int) -> int {
    if a <= b {
        a
    } else {
        b
    }
}

/// How much of `s` can be filtered now: the part before an open control, a
/// cut character and an open C1 control string.
pub open spec fn settled_len(s: Seq<u8>) -> int {
    least(
        least(or_all(s, open_control(s)), or_all(s, cut_char_start(s))),
        or_all(s, open_c1_string(s)),
    )
}

pub proof fn lemma_settled_len(s: Seq<u8>)
    ensures
        0 <= settled_len(s) <= s.len(),
{
    lemma_open_control(s);
    lemma_cut_char_in_range(s);
    lemma_last_c1_string(s, s.len() as int);
}

/// Start of the part of `bytes` that has to wait for more input.
pub fn incomplete_sanitize_start(bytes: &[u8]) -> (r: Option<usize>)
    ensures
        match r {
            Some(at) => at == settled_len(bytes@) && at < bytes@.len(),
            None => settled_len(bytes@) == bytes@.len(),
        },
{
    proof {
        lemma_settled_len(bytes@);
        lemma_open_control(bytes@);
        lemma_cut_char_in_range(bytes@);
    }
    let mut split: usize = bytes.len();
    if let Some(escape) = incomplete_top_level_escape_start(bytes) {
        if escape < split {
            split = escape;
        }
    }
    if let Some(cut) = incomplete_utf8_start(bytes) {
        if cut < split {
            split = cut;
        }
    }
    if let Some(c1) = incomplete_c1_string_escape_start(bytes) {
        if c1 < split {
            split = c1;
        }
    }
    if split < bytes.len() {
        Some(split)
    } else {
        None
    }
}

/// How much of pending input can be shown now: the part before an open
/// control and a cut character.
pub open spec fn flushable_len(s: Seq<u8>) -> int {
    least(or_all(s, open_control(s)), or_all(s, cut_char_start(s)))
}

pub fn flushable_pending_len(pending: &[u8]) -> (r: usize)
    ensures
        r == flushable_len(pending@),
        r <= pending@.len(),
{
    proof {
        lemma_open_control(pending@);
        lemma_cut_char_in_range(pending@);
    }
    let mut split: usize = pending.len();
    if let Some(escape) = incomplete_top_level_escape_start(pending) {
        if escape < split {
            split = escape;
        }
    }
    if let Some(cut) = incomplete_utf8_start(pending) {
        if cut < split {
            split = cut;
        }
    }
    split
}

} // verus!
