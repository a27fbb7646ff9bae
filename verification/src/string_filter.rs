//! Control strings that arrive in pieces. The filter follows an open control
//! string from one read to the next; once the string exceeds its budget, its
//! payload is discarded up to the terminator or cancellation, so that bytes in
//! it are never taken for controls of their own.

use vstd::prelude::*;

use crate::bytes::push_all;
use crate::controls::{c1_code_at, c1_width_at, cancels};
use crate::escapes::{
    chain_root, lemma_scan_at, lemma_stateful_from, next_stateful_control_start, scan_at,
    scan_escape_for_neutralization, stateful_from, string_kind_at, MAX_INCOMPLETE_ESCAPE_BYTES,
    EscapeScan, Scan, StringControlKind,
};
use crate::utf8::lead_width;

verus! {

/// State of a scan through the payload of a control string, one byte at a
/// time.
///
/// A `9C` byte inside a character is no terminator. Whether a character is
/// well formed shows only when its last byte has arrived, so such a byte is
/// remembered with the bytes behind it, and ends the string after all if the
/// character turns out to be malformed.
#[derive(Clone, Copy, Debug, PartialEq, Eq, Structural)]
pub struct StringPayloadScanner {
    pub allows_bel: bool,
    pub saw_escape: bool,
    pub utf8_remaining: u8,
    pub next_utf8_min: u8,
    pub next_utf8_max: u8,
    pub utf8_c1_st_possible: bool,
    pub utf8_raw_st_pending: bool,
    pub replay_first: u8,
    pub replay_second: u8,
    pub replay_len: u8,
}

/// What one more byte of payload means.
pub enum Fed {
    /// The string goes on.
    Go,
    /// The byte ends the string.
    After,
    /// The string ended before this byte; the bytes given come before it.
    Before(Seq<u8>),
}

/// The executable counterpart of [`Fed`].
#[derive(Debug)]
pub enum StringPayloadScan {
    Continue,
    CompleteAfterCurrent,
    CompleteBeforeCurrent(Vec<u8>),
}

impl View for StringPayloadScan {
    type V = Fed;

    open spec fn view(&self) -> Fed {
        match self {
            StringPayloadScan::Continue => Fed::Go,
            StringPayloadScan::CompleteAfterCurrent => Fed::After,
            StringPayloadScan::CompleteBeforeCurrent(replay) => Fed::Before(replay@),
        }
    }
}

pub open spec fn second_min(lead: u8) -> u8 {
    if lead == 0xe0 {
        0xa0
    } else if lead == 0xf0 {
        0x90
    } else {
        0x80
    }
}

pub open spec fn second_max(lead: u8) -> u8 {
    if lead == 0xed {
        0x9f
    } else if lead == 0xf4 {
        0x8f
    } else {
        0xbf
    }
}

impl StringPayloadScanner {
    /// The scanner at the start of a payload.
    pub open spec fn fresh(bel: bool) -> StringPayloadScanner {
        StringPayloadScanner {
            allows_bel: bel,
            saw_escape: false,
            utf8_remaining: 0,
            next_utf8_min: 0x80,
            next_utf8_max: 0xbf,
            utf8_c1_st_possible: false,
            utf8_raw_st_pending: false,
            replay_first: 0,
            replay_second: 0,
            replay_len: 0,
        }
    }

    /// A remembered `9C` belongs to a character that is still open.
    pub open spec fn wf(self) -> bool {
        &&& self.utf8_remaining <= 3
        &&& self.utf8_raw_st_pending ==> 1 <= self.utf8_remaining && self.utf8_remaining
            + self.replay_len <= 2
        &&& !self.utf8_raw_st_pending ==> self.replay_len == 0
    }

    /// The bytes seen behind a remembered `9C`.
    pub open spec fn replay(self) -> Seq<u8> {
        if self.replay_len == 0 {
            Seq::empty()
        } else if self.replay_len == 1 {
            seq![self.replay_first]
        } else {
            seq![self.replay_first, self.replay_second]
        }
    }

    pub open spec fn without_raw_st(self) -> StringPayloadScanner {
        StringPayloadScanner { utf8_raw_st_pending: false, replay_len: 0, ..self }
    }

    /// The scanner after the next byte `b` of an open, so far well-formed
    /// character.
    pub open spec fn in_char(self, b: u8) -> StringPayloadScanner {
        let noted = if self.utf8_raw_st_pending {
            if self.replay_len == 0 {
                StringPayloadScanner { replay_first: b, replay_len: 1, ..self }
            } else {
                StringPayloadScanner { replay_second: b, replay_len: 2, ..self }
            }
        } else if b == 0x9c {
            StringPayloadScanner { utf8_raw_st_pending: true, replay_len: 0, ..self }
        } else {
            self
        };
        let next = StringPayloadScanner {
            utf8_remaining: (self.utf8_remaining - 1) as u8,
            next_utf8_min: 0x80,
            next_utf8_max: 0xbf,
            utf8_c1_st_possible: false,
            ..noted
        };
        if self.utf8_remaining == 1 {
            next.without_raw_st()
        } else {
            next
        }
    }

    /// One byte outside any character.
    pub open spec fn plain(self, b: u8) -> (StringPayloadScanner, Fed) {
        let q = StringPayloadScanner { saw_escape: false, ..self };
        if (self.saw_escape && b == 0x5c) || cancels(b) || (self.allows_bel && b == 0x07) || b
            == 0x9c {
            (q, Fed::After)
        } else if b == 0x1b {
            (StringPayloadScanner { saw_escape: true, ..q }, Fed::Go)
        } else if lead_width(b) > 0 {
            (
                StringPayloadScanner {
                    utf8_remaining: (lead_width(b) - 1) as u8,
                    next_utf8_min: second_min(b),
                    next_utf8_max: second_max(b),
                    utf8_c1_st_possible: b == 0xc2,
                    ..q.without_raw_st()
                },
                Fed::Go,
            )
        } else {
            (q, Fed::Go)
        }
    }

    /// The scanner after byte `b`, and what `b` means.
    pub open spec fn fed(self, b: u8) -> (StringPayloadScanner, Fed) {
        if self.utf8_remaining > 0 && self.next_utf8_min <= b <= self.next_utf8_max {
            (
                self.in_char(b),
                if self.utf8_c1_st_possible && self.utf8_remaining == 1 && b == 0x9c {
                    Fed::After
                } else {
                    Fed::Go
                },
            )
        } else {
            let closed = StringPayloadScanner {
                utf8_remaining: 0,
                utf8_c1_st_possible: false,
                ..self
            };
            if self.utf8_remaining > 0 && self.utf8_raw_st_pending {
                (closed.without_raw_st(), Fed::Before(self.replay()))
            } else if self.utf8_remaining > 0 {
                closed.plain(b)
            } else {
                self.plain(b)
            }
        }
    }

    pub fn new(allows_bel: bool) -> (r: Self)
        ensures
            r == StringPayloadScanner::fresh(allows_bel),
            r.wf(),
    {
        StringPayloadScanner {
            allows_bel,
            saw_escape: false,
            utf8_remaining: 0,
            next_utf8_min: 0x80,
            next_utf8_max: 0xbf,
            utf8_c1_st_possible: false,
            utf8_raw_st_pending: false,
            replay_first: 0,
            replay_second: 0,
            replay_len: 0,
        }
    }

    fn begin_utf8(&mut self, remaining: u8, minimum: u8, maximum: u8)
        ensures
            *final(self) == (StringPayloadScanner {
                utf8_remaining: remaining,
                next_utf8_min: minimum,
                next_utf8_max: maximum,
                ..old(self).without_raw_st()
            }),
    {
        self.utf8_remaining = remaining;
        self.next_utf8_min = minimum;
        self.next_utf8_max = maximum;
        self.clear_tentative_raw_st();
    }

    fn clear_tentative_raw_st(&mut self)
        ensures
            *final(self) == old(self).without_raw_st(),
    {
        self.utf8_raw_st_pending = false;
        self.replay_len = 0;
    }

    /// Takes one byte of payload; reports a terminator or a cancellation.
    pub fn feed(&mut self, byte: u8) -> (r: StringPayloadScan)
        requires
            old(self).wf(),
        ensures
            *final(self) == old(self).fed(byte).0,
            r@ == old(self).fed(byte).1,
            final(self).wf(),
    {
        if self.utf8_remaining > 0 {
            if self.next_utf8_min <= byte && byte <= self.next_utf8_max {
                let is_utf8_c1_st = self.utf8_c1_st_possible && self.utf8_remaining == 1 && byte
                    == 0x9c;
                if self.utf8_raw_st_pending {
                    if self.replay_len == 0 {
                        self.replay_first = byte;
                        self.replay_len = 1;
                    } else {
                        self.replay_second = byte;
                        self.replay_len = 2;
                    }
                } else if byte == 0x9c {
                    self.utf8_raw_st_pending = true;
                    self.replay_len = 0;
                }
                self.utf8_remaining = self.utf8_remaining - 1;
                self.next_utf8_min = 0x80;
                self.next_utf8_max = 0xbf;
                self.utf8_c1_st_possible = false;
                if self.utf8_remaining == 0 {
                    self.clear_tentative_raw_st();
                }
                return if is_utf8_c1_st {
                    StringPayloadScan::CompleteAfterCurrent
                } else {
                    StringPayloadScan::Continue
                };
            }
            self.utf8_remaining = 0;
            self.utf8_c1_st_possible = false;
            if self.utf8_raw_st_pending {
                let mut replay: Vec<u8> = Vec::new();
                if self.replay_len >= 1 {
                    replay.push(self.replay_first);
                }
                if self.replay_len >= 2 {
                    replay.push(self.replay_second);
                }
                assert(replay@ =~= old(self).replay());
                self.clear_tentative_raw_st();
                return StringPayloadScan::CompleteBeforeCurrent(replay);
            }
        }
        let escaped = self.saw_escape;
        self.saw_escape = false;
        if (escaped && byte == 0x5c) || byte == 0x18 || byte == 0x1a || (self.allows_bel && byte
            == 0x07) || byte == 0x9c {
            return StringPayloadScan::CompleteAfterCurrent;
        }
        if byte == 0x1b {
            self.saw_escape = true;
            return StringPayloadScan::Continue;
        }
        if byte == 0xc2 {
            self.begin_utf8(1, 0x80, 0xbf);
            self.utf8_c1_st_possible = true;
        } else if 0xc3 <= byte && byte <= 0xdf {
            self.begin_utf8(1, 0x80, 0xbf);
            self.utf8_c1_st_possible = false;
        } else if 0xe0 <= byte && byte <= 0xef {
            let minimum: u8 = if byte == 0xe0 {
                0xa0
            } else {
                0x80
            };
            let maximum: u8 = if byte == 0xed {
                0x9f
            } else {
                0xbf
            };
            self.begin_utf8(2, minimum, maximum);
            self.utf8_c1_st_possible = false;
        } else if 0xf0 <= byte && byte <= 0xf4 {
            let minimum: u8 = if byte == 0xf0 {
                0x90
            } else {
                0x80
            };
            let maximum: u8 = if byte == 0xf4 {
                0x8f
            } else {
                0xbf
            };
            self.begin_utf8(3, minimum, maximum);
            self.utf8_c1_st_possible = false;
        }
        StringPayloadScan::Continue
    }
}

/// How a followed control string goes on.
pub enum TrackedScan {
    Complete(int),
    Incomplete,
    Oversized(int),
}

/// The executable counterpart of [`TrackedScan`].
#[derive(Clone, Copy, Debug, PartialEq, Eq)]
pub enum TrackedStringScan {
    Complete(usize),
    Incomplete,
    Oversized(usize),
}

impl View for TrackedStringScan {
    type V = TrackedScan;

    open spec fn view(&self) -> TrackedScan {
        match self {
            TrackedStringScan::Complete(end) => TrackedScan::Complete(*end as int),
            TrackedStringScan::Incomplete => TrackedScan::Incomplete,
            TrackedStringScan::Oversized(at) => TrackedScan::Oversized(*at as int),
        }
    }
}

/// Follows the payload `s[i..]` of a string of `total` bytes so far, within
/// the budget: the scanner and the size at the end, and the outcome.
pub open spec fn tracked_run(p: StringPayloadScanner, s: Seq<u8>, i: int, total: int) -> (
    StringPayloadScanner,
    int,
    TrackedScan,
)
    decreases s.len() - i,
{
    if !(0 <= i < s.len()) {
        (p, total, TrackedScan::Incomplete)
    } else if total >= MAX_INCOMPLETE_ESCAPE_BYTES {
        (p, total, TrackedScan::Oversized(i))
    } else {
        let q = p.fed(s[i]).0;
        match p.fed(s[i]).1 {
            Fed::Go => tracked_run(q, s, i + 1, total + 1),
            Fed::After => (q, total + 1, TrackedScan::Complete(i + 1)),
            Fed::Before(replay) => (q, total + 1, TrackedScan::Complete(i - replay.len())),
        }
    }
}

/// Follows the payload `s[i..]` without a budget: the scanner at the end and,
/// where the string ends, the offset behind it with the bytes that come back.
pub open spec fn discard_run(p: StringPayloadScanner, s: Seq<u8>, i: int) -> (
    StringPayloadScanner,
    Option<(int, Seq<u8>)>,
)
    decreases s.len() - i,
{
    if !(0 <= i < s.len()) {
        (p, None)
    } else {
        let q = p.fed(s[i]).0;
        match p.fed(s[i]).1 {
            Fed::Go => discard_run(q, s, i + 1),
            Fed::After => (q, Some((i + 1, Seq::empty()))),
            Fed::Before(replay) => (q, Some((i, replay))),
        }
    }
}

/// The bytes remembered by `p` lie in `s[base..i]`, behind a lead byte and a
/// `9C`.
pub open spec fn replay_fits(p: StringPayloadScanner, base: int, i: int) -> bool {
    p.wf() && (p.utf8_raw_st_pending ==> base + p.replay_len + 2 <= i) && (p.utf8_remaining > 0
        ==> base + 1 <= i)
}

pub proof fn lemma_fed(p: StringPayloadScanner, b: u8, base: int, i: int)
    requires
        base <= i,
        replay_fits(p, base, i),
    ensures
        replay_fits(p.fed(b).0, base, i + 1),
        p.fed(b).1 matches Fed::Before(replay) ==> base + replay.len() + 2 <= i && replay.len()
            <= 1,
{
}

pub proof fn lemma_tracked_run(p: StringPayloadScanner, s: Seq<u8>, i: int, total: int, base: int)
    requires
        base <= i <= s.len(),
        0 <= base,
        replay_fits(p, base, i),
        total >= 0,
    ensures
        ({
            let (q, t, scan) = tracked_run(p, s, i, total);
            match scan {
                TrackedScan::Complete(end) => base < end <= s.len(),
                TrackedScan::Incomplete => t == total + (s.len() - i) && (i < s.len() ==> t
                    <= MAX_INCOMPLETE_ESCAPE_BYTES) && replay_fits(q, base, s.len() as int),
                TrackedScan::Oversized(at) => i <= at < s.len() && q.wf(),
            }
        }),
    decreases s.len() - i,
{
    if i < s.len() && total < MAX_INCOMPLETE_ESCAPE_BYTES {
        lemma_fed(p, s[i], base, i);
        lemma_tracked_run(p.fed(s[i]).0, s, i + 1, total + 1, base);
    }
}

pub proof fn lemma_discard_run(p: StringPayloadScanner, s: Seq<u8>, i: int)
    requires
        0 <= i <= s.len(),
        p.wf(),
    ensures
        discard_run(p, s, i).0.wf(),
        match discard_run(p, s, i).1 {
            Some((end, replay)) => i <= end <= s.len() && replay.len() <= 1,
            None => true,
        },
    decreases s.len() - i,
{
    if i < s.len() {
        lemma_discard_run(p.fed(s[i]).0, s, i + 1);
    }
}

/// `kind` stands at `i`.
pub open spec fn kind_matches(kind: StringControlKind, s: Seq<u8>, i: int) -> bool {
    match kind {
        StringControlKind::EscOsc => i + 1 < s.len() && s[i] == 0x1b && s[i + 1] == 0x5d,
        StringControlKind::EscString(byte) => i + 1 < s.len() && s[i] == 0x1b && s[i + 1] == byte,
        StringControlKind::C1Osc(width) => c1_width_at(s, i) == width && width > 0 && c1_code_at(
            s,
            i,
        ) == 0x9d,
        StringControlKind::C1String(byte, width) => c1_width_at(s, i) == width && width > 0
            && c1_code_at(s, i) == byte,
    }
}

/// A control string that is open at the end of the buffer.
#[derive(Clone, Copy, Debug, PartialEq, Eq, Structural)]
pub struct TrackedStringControl {
    pub kind: StringControlKind,
    /// First of the cancelled controls that led to the string; it goes when
    /// the string goes.
    pub drop_start: usize,
    pub start: usize,
    /// Where the string starts in what is carried to the next read.
    pub carry_offset: usize,
    pub scanned: usize,
    pub total_bytes: usize,
    pub payload: StringPayloadScanner,
}

impl TrackedStringControl {
    pub open spec fn wf(self) -> bool {
        &&& 1 <= self.kind.width() <= 2
        &&& self.kind.width() <= self.total_bytes
        &&& self.scanned == self.start + self.total_bytes
        &&& self.carry_offset == self.start - self.drop_start
        &&& replay_fits(
            self.payload,
            self.kind.width(),
            self.total_bytes as int,
        )
    }

    /// The string, found again at the start of a buffer that begins with what
    /// was carried.
    pub open spec fn aligned(self, s: Seq<u8>) -> Option<TrackedStringControl> {
        if self.carry_offset + self.total_bytes <= s.len() && kind_matches(
            self.kind,
            s,
            self.carry_offset as int,
        ) {
            Some(
                TrackedStringControl {
                    drop_start: 0,
                    start: self.carry_offset,
                    scanned: (self.carry_offset + self.total_bytes) as usize,
                    ..self
                },
            )
        } else {
            None
        }
    }

    pub fn new(
        kind: StringControlKind,
        start: usize,
        payload_start: usize,
        drop_start: usize,
    ) -> (r: Self)
        requires
            drop_start <= start,
            payload_start == start + kind.width(),
            1 <= kind.width() <= 2,
        ensures
            r == (TrackedStringControl {
                kind,
                drop_start,
                start,
                carry_offset: (start - drop_start) as usize,
                scanned: payload_start,
                total_bytes: kind.width() as usize,
                payload: StringPayloadScanner::fresh(kind.bel()),
            }),
            r.wf(),
    {
        TrackedStringControl {
            kind,
            drop_start,
            start,
            carry_offset: start - drop_start,
            scanned: payload_start,
            total_bytes: payload_start - start,
            payload: StringPayloadScanner::new(kind.allows_bel()),
        }
    }

    pub fn align_with_reassembled_carry(&mut self, bytes: &[u8]) -> (r: bool)
        requires
            old(self).wf(),
        ensures
            r == (old(self).aligned(bytes@) is Some),
            r ==> *final(self) == old(self).aligned(bytes@)->Some_0,
            !r ==> *final(self) == *old(self),
            final(self).wf(),
            r ==> final(self).scanned <= bytes@.len(),
    {
        let start = self.carry_offset;
        let len = bytes.len();
        if start <= len && self.total_bytes <= len - start && self.kind.matches_at(bytes, start) {
            self.drop_start = 0;
            self.start = start;
            self.scanned = start + self.total_bytes;
            return true;
        }
        false
    }

    /// Follows the string through the rest of the buffer.
    pub fn scan_more(&mut self, bytes: &[u8]) -> (r: TrackedStringScan)
        requires
            old(self).wf(),
            old(self).scanned <= bytes@.len(),
        ensures
            ({
                let (p, total, scan) = tracked_run(
                    old(self).payload,
                    bytes@,
                    old(self).scanned as int,
                    old(self).total_bytes as int,
                );
                &&& r@ == scan
                &&& scan is Incomplete ==> *final(self) == (TrackedStringControl {
                    payload: p,
                    total_bytes: total as usize,
                    scanned: bytes@.len() as usize,
                    ..*old(self)
                }) && final(self).wf()
                &&& final(self).payload == p
                &&& final(self).kind == old(self).kind
                &&& final(self).drop_start == old(self).drop_start
                &&& final(self).start == old(self).start
            }),
            match r {
                TrackedStringScan::Complete(end) => old(self).start + old(self).kind.width() < end
                    <= bytes@.len(),
                TrackedStringScan::Oversized(at) => old(self).scanned <= at < bytes@.len(),
                _ => true,
            },
            final(self).payload.wf(),
    {
        let ghost first = *self;
        let ghost s = bytes@;
        let ghost base = self.start + self.kind.width();
        proof {
            lemma_tracked_run(
                self.payload,
                s,
                self.scanned as int,
                self.total_bytes as int,
                base,
            );
        }
        let len = bytes.len();
        while self.scanned < len
            invariant
                len == s.len(),
                s == bytes@,
                first == *old(self),
                first.wf(),
                self.wf(),
                self.kind == first.kind,
                self.drop_start == first.drop_start,
                self.start == first.start,
                self.carry_offset == first.carry_offset,
                first.scanned <= self.scanned <= len,
                base == self.start + self.kind.width(),
                tracked_run(first.payload, s, first.scanned as int, first.total_bytes as int)
                    == tracked_run(self.payload, s, self.scanned as int, self.total_bytes as int),
            decreases len - self.scanned,
        {
            if self.total_bytes >= MAX_INCOMPLETE_ESCAPE_BYTES {
                return TrackedStringScan::Oversized(self.scanned);
            }
            let byte = bytes[self.scanned];
            proof {
                lemma_fed(
                    self.payload,
                    byte,
                    self.kind.width(),
                    self.total_bytes as int,
                );
                lemma_tracked_run(
                    self.payload,
                    s,
                    self.scanned as int,
                    self.total_bytes as int,
                    base,
                );
            }
            let at: usize = self.scanned;
            let fed = self.payload.feed(byte);
            self.scanned = at + 1;
            self.total_bytes = self.total_bytes + 1;
            match fed {
                StringPayloadScan::Continue => {},
                StringPayloadScan::CompleteAfterCurrent => {
                    return TrackedStringScan::Complete(at + 1);
                },
                StringPayloadScan::CompleteBeforeCurrent(replay) => {
                    return TrackedStringScan::Complete(at - replay.len());
                },
            }
        }
        TrackedStringScan::Incomplete
    }
}

/// Feeds `bytes[start..]` to the scanner of a discarded string. The result is
/// the offset behind the string with the bytes that come back, if it ends.
fn discarded_terminator(
    payload: &mut StringPayloadScanner,
    bytes: &[u8],
    start: usize,
) -> (r: Option<(usize, Vec<u8>)>)
    requires
        old(payload).wf(),
        start <= bytes@.len(),
    ensures
        *final(payload) == discard_run(*old(payload), bytes@, start as int).0,
        match r {
            Some((end, replay)) => discard_run(*old(payload), bytes@, start as int).1 == Some(
                (end as int, replay@),
            ) && start <= end <= bytes@.len(),
            None => discard_run(*old(payload), bytes@, start as int).1 is None,
        },
        final(payload).wf(),
{
    let ghost first = *payload;
    let mut i: usize = start;
    while i < bytes.len()
        invariant
            start <= i <= bytes@.len(),
            first == *old(payload),
            payload.wf(),
            discard_run(first, bytes@, start as int) == discard_run(*payload, bytes@, i as int),
        decreases bytes@.len() - i,
    {
        match payload.feed(bytes[i]) {
            StringPayloadScan::Continue => {},
            StringPayloadScan::CompleteAfterCurrent => {
                let none: Vec<u8> = Vec::new();
                assert(none@ =~= Seq::<u8>::empty());
                return Some((i + 1, none));
            },
            StringPayloadScan::CompleteBeforeCurrent(replay) => {
                return Some((i, replay));
            },
        }
        i = i + 1;
    }
    None
}

/// What the filter is doing between two reads.
#[derive(Clone, Copy, Debug, PartialEq, Eq, Structural)]
pub enum OversizedStringControlMode {
    /// No control string is open.
    Normal,
    /// An open control string within its budget is carried.
    Tracking(TrackedStringControl),
    /// The payload of an oversized control string is being discarded.
    Discarding(StringPayloadScanner),
}

impl OversizedStringControlMode {
    pub open spec fn wf(self) -> bool {
        match self {
            OversizedStringControlMode::Normal => true,
            OversizedStringControlMode::Tracking(t) => t.wf(),
            OversizedStringControlMode::Discarding(p) => p.wf(),
        }
    }
}

/// Rest of a buffer from offset `i` of it on.
pub open spec fn tail(s: Seq<u8>, i: int) -> Seq<u8> {
    s.subrange(i, s.len() as int)
}

/// The buffer `s` filtered from `scan` on. `out` is what has been let through,
/// `s[copy..]` what has not been copied yet, and `root` the first of the
/// cancelled controls that led to `scan`. The result is what the filter lets
/// through and the mode it is left in.
pub open spec fn filtered_from(s: Seq<u8>, scan: int, copy: int, root: Option<int>, out: Seq<u8>) -> (
    Seq<u8>,
    OversizedStringControlMode,
)
    decreases s.len() - scan,
{
    let idle = (out + tail(s, copy), OversizedStringControlMode::Normal);
    if !(0 <= scan < s.len()) {
        idle
    } else {
        proof {
            lemma_stateful_from(s, scan);
        }
        match stateful_from(s, scan) {
            None => idle,
            Some(start) => {
                let first = chain_root(root, scan, start);
                match string_kind_at(s, start) {
                    None => {
                        proof {
                            lemma_scan_at(s, start);
                        }
                        match scan_at(s, start) {
                            Scan::Complete(end) => filtered_from(s, end, copy, None, out),
                            Scan::Restart(at) => filtered_from(s, at, copy, Some(first), out),
                            _ => idle,
                        }
                    },
                    Some(kind) => {
                        let p = StringPayloadScanner::fresh(kind.bel());
                        let begin = start + kind.width();
                        let (q, total, outcome) = tracked_run(p, s, begin, kind.width());
                        proof {
                            lemma_tracked_run(p, s, begin, kind.width(), begin);
                        }
                        match outcome {
                            TrackedScan::Complete(end) => filtered_from(s, end, copy, None, out),
                            TrackedScan::Incomplete => (
                                out + tail(s, copy),
                                OversizedStringControlMode::Tracking(
                                    TrackedStringControl {
                                        kind,
                                        drop_start: (out.len() + (first - copy)) as usize,
                                        start: (out.len() + (start - copy)) as usize,
                                        carry_offset: (start - first) as usize,
                                        scanned: (out.len() + (s.len() - copy)) as usize,
                                        total_bytes: total as usize,
                                        payload: q,
                                    },
                                ),
                            ),
                            TrackedScan::Oversized(at) => {
                                proof {
                                    lemma_discard_run(q, s, at);
                                }
                                let kept = out + s.subrange(copy, first);
                                match discard_run(q, s, at).1 {
                                    None => (
                                        kept,
                                        OversizedStringControlMode::Discarding(
                                            discard_run(q, s, at).0,
                                        ),
                                    ),
                                    Some((end, replay)) => filtered_from(
                                        s,
                                        end,
                                        end,
                                        None,
                                        kept + replay,
                                    ),
                                }
                            },
                        }
                    },
                }
            },
        }
    }
}

/// What a filter in `mode` lets through of the buffer `s`, which begins with
/// what was carried, and the mode it is left in.
pub open spec fn filtered(mode: OversizedStringControlMode, s: Seq<u8>) -> (
    Seq<u8>,
    OversizedStringControlMode,
) {
    let none = Seq::<u8>::empty();
    match mode {
        OversizedStringControlMode::Tracking(followed) => match followed.aligned(s) {
            Some(t) => {
                let (q, total, outcome) = tracked_run(
                    t.payload,
                    s,
                    t.scanned as int,
                    t.total_bytes as int,
                );
                match outcome {
                    TrackedScan::Complete(end) => filtered_from(s, end, 0, None, none),
                    TrackedScan::Incomplete => (
                        s,
                        OversizedStringControlMode::Tracking(
                            TrackedStringControl {
                                payload: q,
                                total_bytes: total as usize,
                                scanned: s.len() as usize,
                                ..t
                            },
                        ),
                    ),
                    TrackedScan::Oversized(at) => match discard_run(q, s, at).1 {
                        None => (
                            none,
                            OversizedStringControlMode::Discarding(discard_run(q, s, at).0),
                        ),
                        Some((end, replay)) => filtered_from(s, end, end, None, replay),
                    },
                }
            },
            None => filtered_from(s, 0, 0, None, none),
        },
        _ => filtered_from(s, 0, 0, None, none),
    }
}

/// Filter for control strings in a stream.
#[derive(Clone, Debug)]
pub struct OversizedStringControlFilter {
    pub mode: OversizedStringControlMode,
}

impl OversizedStringControlFilter {
    pub open spec fn wf(self) -> bool {
        self.mode.wf()
    }

    pub fn new() -> (r: Self)
        ensures
            r.mode == OversizedStringControlMode::Normal,
            r.wf(),
    {
        OversizedStringControlFilter { mode: OversizedStringControlMode::Normal }
    }

    pub fn is_discarding(&self) -> (r: bool)
        ensures
            r == self.mode is Discarding,
    {
        match self.mode {
            OversizedStringControlMode::Discarding(_) => true,
            _ => false,
        }
    }

    /// At the end of the stream, removes the control string that `bytes`, the
    /// carried input, still holds open.
    pub fn drop_unfinished_string(&mut self, bytes: &mut Vec<u8>)
        requires
            old(self).wf(),
        ensures
            final(self).mode == OversizedStringControlMode::Normal,
            final(bytes)@ == (if old(self).mode matches OversizedStringControlMode::Tracking(t)
                && t.aligned(old(bytes)@) is Some {
                Seq::<u8>::empty()
            } else {
                old(bytes)@
            }),
    {
        let mode = self.mode;
        self.mode = OversizedStringControlMode::Normal;
        if let OversizedStringControlMode::Tracking(followed) = mode {
            let mut followed = followed;
            if followed.align_with_reassembled_carry(bytes.as_slice()) {
                bytes.truncate(followed.drop_start);
                assert(bytes@ =~= Seq::<u8>::empty());
            }
        }
    }

    /// Takes newly read bytes while an oversized string is being discarded.
    /// `None` means that all of them belonged to it; otherwise the result is
    /// what follows the string.
    pub fn consume_discarded(&mut self, bytes: &[u8]) -> (r: Option<Vec<u8>>)
        requires
            old(self).wf(),
        ensures
            final(self).wf(),
            match old(self).mode {
                OversizedStringControlMode::Discarding(p) => match discard_run(p, bytes@, 0).1 {
                    None => r is None && final(self).mode
                        == OversizedStringControlMode::Discarding(discard_run(p, bytes@, 0).0),
                    Some((end, replay)) => r matches Some(rest) && rest@ == replay + tail(
                        bytes@,
                        end,
                    ) && final(self).mode == OversizedStringControlMode::Normal,
                },
                _ => r matches Some(rest) && rest@ == bytes@ && final(self).mode == old(self).mode,
            },
    {
        match self.mode {
            OversizedStringControlMode::Discarding(payload) => {
                let mut payload = payload;
                match discarded_terminator(&mut payload, bytes, 0) {
                    Some((end, replay)) => {
                        self.mode = OversizedStringControlMode::Normal;
                        let mut suffix = replay;
                        push_all(
                            &mut suffix,
                            vstd::slice::slice_subrange(bytes, end, bytes.len()),
                        );
                        Some(suffix)
                    },
                    None => {
                        self.mode = OversizedStringControlMode::Discarding(payload);
                        None
                    },
                }
            },
            _ => Some(vstd::slice::slice_to_vec(bytes)),
        }
    }

    /// Filters a buffer that begins with the carried input, followed by new
    /// bytes. A string that was being followed is resumed where the last scan
    /// stopped.
    #[verifier::rlimit(40)]
    pub fn filter_reassembled(&mut self, bytes: &[u8]) -> (r: Vec<u8>)
        requires
            old(self).wf(),
            !(old(self).mode is Discarding),
        ensures
            (r@, final(self).mode) == filtered(old(self).mode, bytes@),
            final(self).wf(),
    {
        let ghost s = bytes@;
        let ghost goal = filtered(self.mode, s);
        let len = bytes.len();
        let mut output: Vec<u8> = Vec::new();
        let mut copy_from: usize = 0;
        let mut scan_from: usize = 0;
        let mut cancellation_root: Option<usize> = None;
        assert(output@ =~= Seq::<u8>::empty());

        let mode = self.mode;
        self.mode = OversizedStringControlMode::Normal;
        if let OversizedStringControlMode::Tracking(followed) = mode {
            let mut followed = followed;
            if followed.align_with_reassembled_carry(bytes) {
                proof {
                    lemma_tracked_run(
                        followed.payload,
                        s,
                        followed.scanned as int,
                        followed.total_bytes as int,
                        followed.start + followed.kind.width(),
                    );
                }
                match followed.scan_more(bytes) {
                    TrackedStringScan::Complete(end) => {
                        scan_from = end;
                    },
                    TrackedStringScan::Incomplete => {
                        self.mode = OversizedStringControlMode::Tracking(followed);
                        return vstd::slice::slice_to_vec(bytes);
                    },
                    TrackedStringScan::Oversized(overflow) => {
                        let mut payload = followed.payload;
                        proof {
                            lemma_discard_run(payload, s, overflow as int);
                        }
                        match discarded_terminator(&mut payload, bytes, overflow) {
                            Some((end, replay)) => {
                                output = replay;
                                copy_from = end;
                                scan_from = end;
                            },
                            None => {
                                self.mode = OversizedStringControlMode::Discarding(payload);
                                return output;
                            },
                        }
                    },
                }
            }
        }
        while scan_from < len
            invariant_except_break
                len == s.len(),
                s == bytes@,
                goal == filtered(old(self).mode, s),
                self.mode == OversizedStringControlMode::Normal,
                copy_from <= scan_from <= len,
                output@.len() <= copy_from,
                match cancellation_root {
                    Some(root) => copy_from <= root < scan_from,
                    None => true,
                },
                goal == filtered_from(
                    s,
                    scan_from as int,
                    copy_from as int,
                    match cancellation_root {
                        Some(root) => Some(root as int),
                        None => None,
                    },
                    output@,
                ),
            ensures
                self.mode == OversizedStringControlMode::Normal,
                copy_from <= len,
                goal == (output@ + tail(s, copy_from as int), OversizedStringControlMode::Normal),
            decreases len - scan_from,
        {
            let start = match next_stateful_control_start(bytes, scan_from) {
                Some(start) => start,
                None => {
                    break;
                },
            };
            if start > scan_from {
                cancellation_root = None;
            }
            let drop_start: usize = match cancellation_root {
                Some(root) => root,
                None => start,
            };
            let (kind, payload_start) = match StringControlKind::at(bytes, start) {
                Some(found) => found,
                None => {
                    match scan_escape_for_neutralization(bytes, start) {
                        EscapeScan::Complete(end) => {
                            cancellation_root = None;
                            scan_from = end;
                        },
                        EscapeScan::Restart(restart) => {
                            cancellation_root = Some(drop_start);
                            scan_from = restart;
                        },
                        _ => {
                            break;
                        },
                    }
                    continue;
                },
            };
            let mut followed = TrackedStringControl::new(kind, start, payload_start, drop_start);
            proof {
                lemma_tracked_run(
                    followed.payload,
                    s,
                    payload_start as int,
                    kind.width(),
                    payload_start as int,
                );
            }
            match followed.scan_more(bytes) {
                TrackedStringScan::Complete(end) => {
                    cancellation_root = None;
                    scan_from = end;
                },
                TrackedStringScan::Incomplete => {
                    let kept: usize = output.len();
                    followed.drop_start = kept + (drop_start - copy_from);
                    followed.start = kept + (start - copy_from);
                    followed.scanned = kept + (len - copy_from);
                    followed.carry_offset = start - drop_start;
                    self.mode = OversizedStringControlMode::Tracking(followed);
                    push_all(&mut output, vstd::slice::slice_subrange(bytes, copy_from, len));
                    return output;
                },
                TrackedStringScan::Oversized(overflow) => {
                    push_all(
                        &mut output,
                        vstd::slice::slice_subrange(bytes, copy_from, drop_start),
                    );
                    let mut payload = followed.payload;
                    proof {
                        lemma_discard_run(payload, s, overflow as int);
                    }
                    match discarded_terminator(&mut payload, bytes, overflow) {
                        Some((end, replay)) => {
                            push_all(&mut output, replay.as_slice());
                            copy_from = end;
                            scan_from = end;
                            cancellation_root = None;
                        },
                        None => {
                            self.mode = OversizedStringControlMode::Discarding(payload);
                            return output;
                        },
                    }
                },
            }
        }
        push_all(&mut output, vstd::slice::slice_subrange(bytes, copy_from, len));
        output
    }
}

} // verus!
