//! Filters on whole buffers: dropping control strings, and making open
//! controls harmless by replacing their first byte.

use vstd::prelude::*;

use crate::bytes::push_all;
use crate::controls::{
    c1_control_at, c1_width_at, control_at, is_control_at, lemma_string_end, string_end_or_all,
    text_unit_end,
};
use crate::escapes::{
    chain_root, incomplete_top_level_escape_start, lemma_scan_at, lemma_stateful_from,
    next_stateful_control_start, open_control, scan_at, scan_escape_for_neutralization,
    stateful_from, string_kind_at, EscapeScan, Scan, StringControlKind,
};
use crate::utf8::valid_utf8_char_width_at;

verus! {

/// What becomes of a control that is followed through its cancellations.
pub enum Chain {
    /// A control string ends it: all of it goes, up to this offset.
    Drop(int),
    /// Another control ends it: all of it stays, up to this offset.
    Keep(int),
}

/// The chain of cancelled controls that has reached the control at `i`.
pub open spec fn chain_from(s: Seq<u8>, i: int) -> Chain
    decreases s.len() - i,
{
    if !(0 <= i < s.len()) {
        Chain::Keep(s.len() as int)
    } else if let Some(kind) = string_kind_at(s, i) {
        Chain::Drop(string_end_or_all(s, i + kind.width(), kind.bel()))
    } else {
        proof {
            lemma_scan_at(s, i);
        }
        match scan_at(s, i) {
            Scan::Restart(at) => chain_from(s, at),
            Scan::Complete(end) => Chain::Keep(end),
            _ => Chain::Keep(s.len() as int),
        }
    }
}

pub proof fn lemma_chain_from(s: Seq<u8>, i: int)
    requires
        0 <= i < s.len(),
    ensures
        match chain_from(s, i) {
            Chain::Drop(end) => i < end <= s.len(),
            Chain::Keep(end) => i < end <= s.len(),
        },
    decreases s.len() - i,
{
    lemma_scan_at(s, i);
    if let Some(kind) = string_kind_at(s, i) {
        lemma_string_end(s, i + kind.width(), kind.bel());
    } else if let Scan::Restart(at) = scan_at(s, i) {
        lemma_chain_from(s, at);
    }
}

/// `s[i..]` without its control strings and without the cancelled controls
/// that lead to them.
pub open spec fn sanitized_from(s: Seq<u8>, i: int) -> Seq<u8>
    decreases s.len() - i,
{
    if !(0 <= i < s.len()) {
        Seq::empty()
    } else if control_at(s, i) {
        proof {
            lemma_chain_from(s, i);
        }
        match chain_from(s, i) {
            Chain::Drop(end) => sanitized_from(s, end),
            Chain::Keep(end) => s.subrange(i, end) + sanitized_from(s, end),
        }
    } else {
        s.subrange(i, text_unit_end(s, i)) + sanitized_from(s, text_unit_end(s, i))
    }
}

/// `s` without its control strings.
pub open spec fn sanitized(s: Seq<u8>) -> Seq<u8> {
    sanitized_from(s, 0)
}

proof fn lemma_sanitized_len(s: Seq<u8>, i: int)
    requires
        0 <= i <= s.len(),
    ensures
        sanitized_from(s, i).len() <= s.len() - i,
    decreases s.len() - i,
{
    if i < s.len() {
        if control_at(s, i) {
            lemma_chain_from(s, i);
            match chain_from(s, i) {
                Chain::Drop(end) => lemma_sanitized_len(s, end),
                Chain::Keep(end) => lemma_sanitized_len(s, end),
            }
        } else {
            lemma_sanitized_len(s, text_unit_end(s, i));
        }
    }
}

/// Sanitizing never makes input longer.
pub proof fn sanitizing_never_grows(s: Seq<u8>)
    ensures
        sanitized(s).len() <= s.len(),
{
    lemma_sanitized_len(s, 0);
}

/// A control string at the front of any input is dropped as a whole, also
/// where its terminator is missing.
pub proof fn sanitizing_drops_leading_string(s: Seq<u8>)
    requires
        string_kind_at(s, 0) is Some,
    ensures
        ({
            let kind = string_kind_at(s, 0)->Some_0;
            sanitized(s) == sanitized_from(s, string_end_or_all(s, kind.width(), kind.bel()))
        }),
{
}

/// Removes control strings — OSC, DCS, SOS, PM, APC, with ESC and C1
/// introducers — and keeps visible text, CSI sequences and simple escapes. A
/// string left open at the end of the input is dropped too.
pub fn strip_string_escapes(input: &[u8]) -> (r: Vec<u8>)
    ensures
        r@ == sanitized(input@),
{
    let mut out: Vec<u8> = Vec::new();
    let mut idx: usize = 0;
    let ghost s = input@;
    assert(out@ + sanitized_from(s, 0) =~= sanitized(s));
    while idx < input.len()
        invariant
            s == input@,
            idx <= s.len(),
            out@ + sanitized_from(s, idx as int) == sanitized(s),
        decreases s.len() - idx,
    {
        let ghost before = out@;
        if is_control_at(input, idx) {
            proof {
                lemma_chain_from(s, idx as int);
            }
            let root: usize = idx;
            let mut current: usize = idx;
            let mut kept: Option<usize> = None;
            let mut next: usize = idx;
            loop
                invariant_except_break
                    s == input@,
                    root <= current < s.len(),
                    root == idx,
                    chain_from(s, root as int) == chain_from(s, current as int),
                ensures
                    match chain_from(s, root as int) {
                        Chain::Drop(end) => next == end && kept is None,
                        Chain::Keep(end) => next == end && kept == Some(next),
                    },
                decreases s.len() - current,
            {
                if let Some((kind, _payload)) = StringControlKind::at(input, current) {
                    next = kind.sequence_end(input, current);
                    kept = None;
                    break;
                }
                match scan_escape_for_neutralization(input, current) {
                    EscapeScan::Restart(restart) => {
                        current = restart;
                    },
                    EscapeScan::Complete(end) => {
                        next = end;
                        kept = Some(end);
                        break;
                    },
                    _ => {
                        next = input.len();
                        kept = Some(next);
                        break;
                    },
                }
            }
            if let Some(end) = kept {
                push_all(&mut out, vstd::slice::slice_subrange(input, root, end));
            }
            idx = next;
            assert(out@ + sanitized_from(s, idx as int) =~= before + sanitized_from(
                s,
                root as int,
            ));
        } else {
            let end: usize = match valid_utf8_char_width_at(input, idx) {
                Some(width) => idx + width,
                None => idx + 1,
            };
            push_all(&mut out, vstd::slice::slice_subrange(input, idx, end));
            assert(out@ + sanitized_from(s, end as int) =~= before + sanitized_from(
                s,
                idx as int,
            ));
            idx = end;
        }
    }
    assert(out@ =~= out@ + sanitized_from(s, idx as int));
    out
}

/// `s` with the control at `i` made harmless: its first byte becomes `^`, and
/// the second byte of a UTF-8 C1 control becomes `?`.
pub open spec fn neutralized_at(s: Seq<u8>, i: int) -> Seq<u8> {
    if c1_width_at(s, i) == 2 {
        s.update(i, 0x5e).update(i + 1, 0x3f)
    } else {
        s.update(i, 0x5e)
    }
}

pub fn neutralize_control_start(bytes: &mut Vec<u8>, start: usize)
    requires
        start < old(bytes)@.len(),
    ensures
        final(bytes)@ == neutralized_at(old(bytes)@, start as int),
        final(bytes)@.len() == old(bytes)@.len(),
{
    let width: usize = match c1_control_at(bytes.as_slice(), start) {
        Some((_control, width)) => width,
        None => 1,
    };
    let len = bytes.len();
    assert(width == 2 ==> start + 1 < len);
    bytes.set(start, 0x5e);
    if width == 2 {
        bytes.set(start + 1, 0x3f);
    }
}

/// `s` at the end of the stream, where the chain of open controls that began
/// at `root` has reached `i`: each control of the chain is neutralized, unless
/// the chain ends in a control string, which goes with the whole chain.
pub open spec fn closed_chain(s: Seq<u8>, root: int, i: int) -> Seq<u8>
    decreases s.len() - i,
{
    if !(0 <= i < s.len()) {
        s
    } else {
        proof {
            lemma_scan_at(s, i);
        }
        match scan_at(s, i) {
            Scan::Restart(at) => closed_chain(neutralized_at(s, i), root, at),
            Scan::Complete(_) => s,
            _ => if string_kind_at(s, i) is Some {
                s.subrange(0, root)
            } else {
                neutralized_at(s, i)
            },
        }
    }
}

/// What the end of the stream leaves of `s`.
pub open spec fn closed_at_eof(s: Seq<u8>) -> Seq<u8> {
    match open_control(s) {
        Some(root) => closed_chain(s, root, root),
        None => s,
    }
}

/// Makes a control that the end of the stream leaves open harmless.
pub fn neutralize_incomplete_escape_at_eof(bytes: &mut Vec<u8>)
    ensures
        final(bytes)@ == closed_at_eof(old(bytes)@),
{
    let root: usize = match incomplete_top_level_escape_start(bytes.as_slice()) {
        Some(root) => root,
        None => return,
    };
    let mut current: usize = root;
    loop
        invariant
            root <= current < bytes@.len(),
            closed_at_eof(old(bytes)@) == closed_chain(bytes@, root as int, current as int),
        decreases bytes@.len() - current,
    {
        let is_string = StringControlKind::at(bytes.as_slice(), current).is_some();
        match scan_escape_for_neutralization(bytes.as_slice(), current) {
            EscapeScan::Restart(restart) => {
                neutralize_control_start(bytes, current);
                current = restart;
            },
            EscapeScan::Complete(_) => {
                return;
            },
            _ => {
                if is_string {
                    bytes.truncate(root);
                } else {
                    neutralize_control_start(bytes, current);
                }
                return;
            },
        }
    }
}

/// `s` with the chain of cancelled controls from `i` to `last` neutralized.
pub open spec fn neutralized_chain(s: Seq<u8>, i: int, last: int) -> Seq<u8>
    decreases s.len() - i,
{
    if !(0 <= i < last && last < s.len()) {
        neutralized_at(s, last)
    } else {
        proof {
            lemma_scan_at(s, i);
        }
        match scan_at(s, i) {
            Scan::Restart(at) => if at <= last {
                neutralized_chain(neutralized_at(s, i), at, last)
            } else {
                neutralized_at(neutralized_at(s, i), last)
            },
            _ => neutralized_at(neutralized_at(s, i), last),
        }
    }
}

pub proof fn lemma_neutralized_chain_len(s: Seq<u8>, i: int, last: int)
    requires
        0 <= i <= last < s.len(),
    ensures
        neutralized_chain(s, i, last).len() == s.len(),
    decreases s.len() - i,
{
    lemma_scan_at(s, i);
    if i < last {
        if let Scan::Restart(at) = scan_at(s, i) {
            if at <= last {
                lemma_neutralized_chain_len(neutralized_at(s, i), at, last);
            }
        }
    }
}

fn neutralize_restart_chain(bytes: &mut Vec<u8>, root: usize, terminal: usize)
    requires
        root <= terminal < old(bytes)@.len(),
    ensures
        final(bytes)@ == neutralized_chain(old(bytes)@, root as int, terminal as int),
        final(bytes)@.len() == old(bytes)@.len(),
{
    proof {
        lemma_neutralized_chain_len(bytes@, root as int, terminal as int);
    }
    let ghost goal = neutralized_chain(bytes@, root as int, terminal as int);
    let mut current: usize = root;
    while current < terminal
        invariant_except_break
            current <= terminal < bytes@.len(),
            neutralized_chain(bytes@, current as int, terminal as int) == goal,
        ensures
            terminal < bytes@.len(),
            neutralized_at(bytes@, terminal as int) == goal,
        decreases terminal - current,
    {
        match scan_escape_for_neutralization(bytes.as_slice(), current) {
            EscapeScan::Restart(restart) => {
                neutralize_control_start(bytes, current);
                if restart > terminal {
                    break;
                }
                current = restart;
            },
            _ => {
                neutralize_control_start(bytes, current);
                break;
            },
        }
    }
    neutralize_control_start(bytes, terminal);
}

/// `s` from `i` on with every oversized open control neutralized, and whether
/// there was one. `root` is the first of the cancelled controls that led to
/// `i`.
pub open spec fn oversized_closed_from(s: Seq<u8>, i: int, root: Option<int>) -> (Seq<u8>, bool)
    decreases s.len() - i,
{
    if !(0 <= i < s.len()) {
        (s, false)
    } else {
        proof {
            lemma_stateful_from(s, i);
        }
        match stateful_from(s, i) {
            None => (s, false),
            Some(start) => {
                proof {
                    lemma_scan_at(s, start);
                }
                let first = chain_root(root, i, start);
                match scan_at(s, start) {
                    Scan::Complete(end) => oversized_closed_from(s, end, None),
                    Scan::Restart(at) => oversized_closed_from(s, at, Some(first)),
                    Scan::Pending => (s, false),
                    Scan::Oversized => if 0 <= first <= start {
                        proof {
                            lemma_neutralized_chain_len(s, first, start);
                        }
                        (oversized_closed_from(
                            neutralized_chain(s, first, start),
                            start + 1,
                            None,
                        ).0, true)
                    } else {
                        (s, true)
                    },
                }
            },
        }
    }
}

/// `s` with its oversized open controls neutralized.
pub open spec fn oversized_closed(s: Seq<u8>) -> Seq<u8> {
    oversized_closed_from(s, 0, None).0
}

proof fn lemma_oversized_closed_from_len(s: Seq<u8>, i: int, root: Option<int>)
    ensures
        oversized_closed_from(s, i, root).0.len() == s.len(),
    decreases s.len() - i,
{
    if 0 <= i < s.len() {
        lemma_stateful_from(s, i);
        if let Some(start) = stateful_from(s, i) {
            lemma_scan_at(s, start);
            let first = chain_root(root, i, start);
            match scan_at(s, start) {
                Scan::Complete(end) => lemma_oversized_closed_from_len(s, end, None),
                Scan::Restart(at) => lemma_oversized_closed_from_len(s, at, Some(first)),
                Scan::Pending => {},
                Scan::Oversized => {
                    if 0 <= first <= start {
                        lemma_neutralized_chain_len(s, first, start);
                        lemma_oversized_closed_from_len(
                            neutralized_chain(s, first, start),
                            start + 1,
                            None,
                        );
                    }
                },
            }
        }
    }
}

proof fn lemma_oversized_unchanged_from(s: Seq<u8>, i: int, root: Option<int>)
    requires
        !oversized_closed_from(s, i, root).1,
    ensures
        oversized_closed_from(s, i, root).0 == s,
    decreases s.len() - i,
{
    if 0 <= i < s.len() {
        lemma_stateful_from(s, i);
        if let Some(start) = stateful_from(s, i) {
            lemma_scan_at(s, start);
            let first = chain_root(root, i, start);
            match scan_at(s, start) {
                Scan::Complete(end) => lemma_oversized_unchanged_from(s, end, None),
                Scan::Restart(at) => lemma_oversized_unchanged_from(s, at, Some(first)),
                _ => {},
            }
        }
    }
}

/// Bytes without an open control that is too long stay as they are.
pub proof fn lemma_oversized_unchanged(s: Seq<u8>)
    requires
        !oversized_closed_from(s, 0, None).1,
    ensures
        oversized_closed(s) == s,
{
    lemma_oversized_unchanged_from(s, 0, None);
}

pub proof fn lemma_oversized_closed_len(s: Seq<u8>)
    ensures
        oversized_closed(s).len() == s.len(),
{
    lemma_oversized_closed_from_len(s, 0, None);
}

/// Neutralizes open controls that exceed their limit; reports whether there
/// was one.
pub fn neutralize_oversized_incomplete_escape(bytes: &mut Vec<u8>) -> (changed: bool)
    ensures
        final(bytes)@ == oversized_closed(old(bytes)@),
        changed == oversized_closed_from(old(bytes)@, 0, None).1,
        final(bytes)@.len() == old(bytes)@.len(),
{
    let mut changed: bool = false;
    let mut idx: usize = 0;
    let mut cancellation_root: Option<usize> = None;
    let ghost goal = oversized_closed_from(bytes@, 0, None);
    let ghost total = bytes@.len();
    while idx < bytes.len()
        invariant_except_break
            bytes@.len() == total,
            idx <= bytes@.len(),
            match cancellation_root {
                Some(root) => root < idx,
                None => true,
            },
            goal.0 == oversized_closed_from(
                bytes@,
                idx as int,
                match cancellation_root {
                    Some(root) => Some(root as int),
                    None => None,
                },
            ).0,
            goal.1 == (changed || oversized_closed_from(
                bytes@,
                idx as int,
                match cancellation_root {
                    Some(root) => Some(root as int),
                    None => None,
                },
            ).1),
        ensures
            bytes@.len() == total,
            bytes@ == goal.0,
            changed == goal.1,
        decreases bytes@.len() - idx,
    {
        let start = match next_stateful_control_start(bytes.as_slice(), idx) {
            Some(start) => start,
            None => {
                break;
            },
        };
        if start > idx {
            cancellation_root = None;
        }
        let root: usize = match cancellation_root {
            Some(root) => root,
            None => start,
        };
        match scan_escape_for_neutralization(bytes.as_slice(), start) {
            EscapeScan::Complete(end) => {
                cancellation_root = None;
                idx = end;
            },
            EscapeScan::Restart(restart) => {
                cancellation_root = Some(root);
                idx = restart;
            },
            EscapeScan::IncompleteWithinLimit => {
                break;
            },
            EscapeScan::IncompleteOversized => {
                neutralize_restart_chain(bytes, root, start);
                changed = true;
                idx = start + 1;
                cancellation_root = None;
            },
        }
    }
    changed
}

} // verus!
