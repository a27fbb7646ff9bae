//! Sound text that arrives in pieces: whatever has come of it so far, a stream
//! finds the place where the last whole unit ends.

use vstd::prelude::*;

use crate::controls::{
    c1_byte, c1_width_at, cancels, control_at, control_end, lemma_control_end, text_unit_end,
};
use crate::escapes::{
    csi_scan, intermediate_scan, lemma_stateful_from, open_control, open_from, scan_at,
    stateful_from, string_kind_at, string_scan, MAX_INCOMPLETE_ESCAPE_BYTES,
    MAX_INCOMPLETE_NON_STRING_ESCAPE_BYTES, Scan, StringControlKind,
};
use crate::sanitize::{oversized_closed, oversized_closed_from};
use crate::split::{control_covers, covering_end, stream_split, token_byte, token_start};
use crate::string_filter::{
    filtered, filtered_from, kind_matches, tail, tracked_run, OversizedStringControlMode,
    StringPayloadScanner, TrackedScan, TrackedStringControl,
};
use crate::units::{
    closed_to, csi_body, csi_width, cut_at, escape_body, lemma_between, lemma_body_closed, lemma_char_stands,
    lemma_closed_on, lemma_cut_closed, lemma_cut_ends, lemma_cut_within, lemma_next_cut,
    lemma_outside, lemma_sound_closed, lemma_sound_concat, lemma_sound_split, lemma_sound_unit,
    lemma_unit_at, lemma_unit_stands, payload, payload_byte, rest_of, sound, stands_at, string_c1,
    terminator_len, unit_len, whole, whole_c1, whole_char, whole_control, whole_csi, whole_escape,
    whole_string,
};
use crate::utf8::{
    announced_width, char_covers, char_width_at, continuation, continuation_run_start,
    cut_char_start, inside_char, lead_width, lemma_cut_char_in_range, open_prefix_covers,
};

verus! {

/// A control is short enough to be waited for.
pub open spec fn within_limits(u: Seq<u8>) -> bool {
    &&& whole_csi(u) || whole_escape(u) ==> u.len() <= MAX_INCOMPLETE_NON_STRING_ESCAPE_BYTES
    &&& whole_string(u) ==> u.len() <= MAX_INCOMPLETE_ESCAPE_BYTES
}

/// All controls of sound text are short enough to be waited for.
pub open spec fn brief(x: Seq<u8>) -> bool
    decreases x.len(),
{
    let n = unit_len(x);
    x.len() == 0 || !(0 < n <= x.len()) || (within_limits(x.subrange(0, n)) && brief(rest_of(x, n)))
}

/// Text of characters and complete controls: CSI sequences, control strings, ESC
/// sequences and C1 controls other than single shifts, none of them too long to
/// be waited for. C1 controls stand in one byte or in two; CAN and SUB complete
/// the control that they cancel.
pub open spec fn well_formed(x: Seq<u8>) -> bool {
    sound(x) && brief(x)
}

pub proof fn lemma_brief_next(y: Seq<u8>, i: int) -> (e: int)
    requires
        cut_at(y, i),
        i < y.len(),
        brief(rest_of(y, i)),
    ensures
        i < e <= y.len(),
        cut_at(y, e),
        whole(y.subrange(i, e)),
        control_at(y, i) == whole_control(y.subrange(i, e)),
        control_at(y, i) ==> control_end(y, i) == e,
        !control_at(y, i) ==> text_unit_end(y, i) == e,
        within_limits(y.subrange(i, e)),
        brief(rest_of(y, e)),
        e == next_cut(y, i),
{
    let e = lemma_next_cut(y, i);
    let x = rest_of(y, i);
    let n = unit_len(x);
    lemma_sound_split(x);
    assert(x.subrange(0, n) =~= y.subrange(i, i + n));
    assert(stands_at(y, i, y.subrange(i, i + n)));
    lemma_cut_closed(y, i);
    lemma_unit_stands(y, i, y.subrange(i, i + n));
    assert(rest_of(x, n) =~= rest_of(y, i + n));
    e
}

/// The end of the unit at `i`.
pub open spec fn next_cut(y: Seq<u8>, i: int) -> int {
    if control_at(y, i) {
        control_end(y, i)
    } else {
        text_unit_end(y, i)
    }
}

/// From `i` on, where the last unit ends that is complete in the first `m`
/// bytes.
pub open spec fn last_cut(y: Seq<u8>, m: int, i: int) -> int
    decreases m - i,
{
    let e = next_cut(y, i);
    if 0 <= i < m && i < e <= m {
        last_cut(y, m, e)
    } else {
        i
    }
}

pub proof fn lemma_last_cut(y: Seq<u8>, m: int, i: int)
    requires
        cut_at(y, i),
        brief(rest_of(y, i)),
        i <= m <= y.len(),
    ensures
        i <= last_cut(y, m, i) <= m,
        cut_at(y, last_cut(y, m, i)),
        brief(rest_of(y, last_cut(y, m, i))),
        last_cut(y, m, i) < m ==> next_cut(y, last_cut(y, m, i)) > m,
    decreases m - i,
{
    if i < m {
        let e = lemma_brief_next(y, i);
        if e <= m {
            lemma_last_cut(y, m, e);
        }
    }
}

/// The first `m` bytes.
pub open spec fn so_far(y: Seq<u8>, m: int) -> Seq<u8> {
    y.subrange(0, m)
}

proof fn lemma_byte_so_far(y: Seq<u8>, m: int)
    requires
        0 <= m <= y.len(),
    ensures
        forall|k: int| 0 <= k < m ==> #[trigger] so_far(y, m)[k] == y[k],
        so_far(y, m).len() == m,
{
}

proof fn lemma_char_so_far(y: Seq<u8>, m: int, k: int)
    requires
        0 <= k < m <= y.len(),
    ensures
        k + char_width_at(y, k) <= m ==> char_width_at(so_far(y, m), k) == char_width_at(y, k),
        char_width_at(y, k) == 0 ==> char_width_at(so_far(y, m), k) == 0,
        k + char_width_at(y, k) > m && char_width_at(y, k) > 0 ==> char_width_at(so_far(y, m), k)
            == 0,
{
    let s = so_far(y, m);
    lemma_byte_so_far(y, m);
    assert(s[k] == y[k]);
}

pub proof fn lemma_closed_so_far(y: Seq<u8>, m: int, i: int)
    requires
        closed_to(y, i),
        0 <= i <= m <= y.len(),
    ensures
        closed_to(so_far(y, m), i),
{
    lemma_byte_so_far(y, m);
    assert forall|p: int| 0 <= p < i implies p + announced_width(#[trigger] so_far(y, m)[p])
        <= i by {
        assert(so_far(y, m)[p] == y[p]);
    }
}

/// Bytes of a character that is cut off stand inside of it.
proof fn lemma_inside_cut(y: Seq<u8>, m: int, lead: int, k: int)
    requires
        0 <= lead < k < m <= y.len(),
        char_width_at(y, lead) > 0,
        lead + char_width_at(y, lead) > m,
    ensures
        inside_char(so_far(y, m), k),
        continuation(so_far(y, m)[k]),
{
    let s = so_far(y, m);
    lemma_byte_so_far(y, m);
    assert(s[lead] == y[lead] && s[lead + 1] == y[lead + 1]);
    assert forall|j: int| lead + 2 <= j <= k implies continuation(#[trigger] s[j]) by {
        assert(s[j] == y[j]);
    }
    assert(open_prefix_covers(s, lead, k));
    assert(char_covers(s, lead, k));
    assert(s[k] == y[k]);
}

/// Bytes of a complete character stand inside of it.
pub proof fn lemma_inside_whole(s: Seq<u8>, lead: int, k: int)
    requires
        0 <= lead < k,
        char_width_at(s, lead) > k - lead,
    ensures
        inside_char(s, k),
{
    assert(char_covers(s, lead, k));
}

proof fn lemma_csi_partial(y: Seq<u8>, m: int, i: int, e: int, k: int)
    requires
        0 <= i,
        i + csi_width(y.subrange(i, e)) <= k <= m < e <= y.len(),
        whole_csi(y.subrange(i, e)),
        e - i <= MAX_INCOMPLETE_NON_STRING_ESCAPE_BYTES,
    ensures
        csi_scan(so_far(y, m), i, k) is Pending,
    decreases m - k,
{
    let u = y.subrange(i, e);
    if k < m {
        assert(so_far(y, m)[k] == u[k - i]);
        assert(csi_body(u[k - i]));
        lemma_csi_partial(y, m, i, e, k + 1);
    }
}

proof fn lemma_csi_complete(y: Seq<u8>, m: int, i: int, e: int, k: int)
    requires
        0 <= i,
        i + csi_width(y.subrange(i, e)) <= k < e <= m <= y.len(),
        whole_csi(y.subrange(i, e)),
    ensures
        csi_scan(so_far(y, m), i, k) == Scan::Complete(e),
    decreases e - k,
{
    let u = y.subrange(i, e);
    assert(so_far(y, m)[k] == u[k - i]);
    if k < e - 1 {
        assert(csi_body(u[k - i]));
        lemma_csi_complete(y, m, i, e, k + 1);
    }
}

proof fn lemma_payload_char(y: Seq<u8>, i: int, e: int, k: int, end: int, bel: bool)
    requires
        0 <= i <= k < end <= e <= y.len(),
        payload(y.subrange(i, e), k - i, end - i, bel),
    ensures
        ({
            let u = y.subrange(i, e);
            let w = char_width_at(u, k - i);
            &&& u[k - i] == y[k]
            &&& w > 0 ==> char_width_at(y, k) == w && k + w <= end && !(y[k] == 0xc2 && string_c1(
                y[k + 1],
            )) && payload(u, k + w - i, end - i, bel)
            &&& w == 0 ==> payload_byte(y[k], bel) && char_width_at(y, k) == 0
                && payload(u, k + 1 - i, end - i, bel)
            &&& w == 0 && y[k] == 0x1b && k + 1 < e ==> y[k + 1] != 0x5c
        }),
{
    let u = y.subrange(i, e);
    assert(u[k - i] == y[k]);
    if k + 1 < e {
        assert(u[k + 1 - i] == y[k + 1]);
    }
    if k + 2 < e {
        assert(u[k + 2 - i] == y[k + 2]);
    }
    if k + 3 < e {
        assert(u[k + 3 - i] == y[k + 3]);
    }
}

/// What kind of control string begins at `i`.
pub open spec fn kind_of(y: Seq<u8>, i: int) -> StringControlKind {
    string_kind_at(y, i)->Some_0
}

/// Where a control string ends before its terminator, counted in `y`.
pub open spec fn payload_end(y: Seq<u8>, i: int, e: int) -> int {
    e - terminator_len(y.subrange(i, e), kind_of(y, i).width(), kind_of(y, i).bel())
}

pub proof fn lemma_string_facts(y: Seq<u8>, i: int, e: int)
    requires
        0 <= i < e <= y.len(),
        whole_string(y.subrange(i, e)),
        closed_to(y, i),
    ensures
        ({
            let kind = kind_of(y, i);
            let end = payload_end(y, i, e);
            &&& string_kind_at(y, i) is Some
            &&& string_kind_at(y.subrange(i, e), 0) == string_kind_at(y, i)
            &&& 1 <= kind.width() <= 2
            &&& i + kind.width() <= end < e
            &&& payload(y.subrange(i, e), kind.width(), end - i, kind.bel())
            &&& closed_to(y, end)
            &&& (end == e - 1 && kind.bel() && y[end] == 0x07) || (end == e - 2 && y[end] == 0x1b
                && y[end + 1] == 0x5c) || (end == e - 2 && y[end] == 0xc2 && y[end + 1] == 0x9c)
                || (end == e - 1 && (y[end] == 0x9c || cancels(y[end])))
        }),
{
    let u = y.subrange(i, e);
    assert(u[0] == y[i]);
    lemma_body_closed(u);
    if e - i >= 2 {
        assert(u[1] == y[i + 1]);
        assert(u[e - i - 2] == y[e - 2]);
    }
    assert(u[e - i - 1] == y[e - 1]);
    assert(stands_at(y, i, u));
    lemma_closed_on(y, i, u, payload_end(y, i, e) - i);
}

proof fn lemma_string_partial(y: Seq<u8>, m: int, i: int, e: int, k: int)
    requires
        0 <= i,
        i < k <= m < e <= y.len(),
        closed_to(y, i),
        whole_string(y.subrange(i, e)),
        e - i <= MAX_INCOMPLETE_ESCAPE_BYTES,
        k <= payload_end(y, i, e),
        payload(y.subrange(i, e), k - i, payload_end(y, i, e) - i, kind_of(y, i).bel()),
    ensures
        string_scan(so_far(y, m), i, k, kind_of(y, i).bel()) is Pending,
    decreases m - k,
{
    let s = so_far(y, m);
    let bel = kind_of(y, i).bel();
    let end = payload_end(y, i, e);
    lemma_string_facts(y, i, e);
    if k < m {
        assert(s[k] == y[k]);
        if k < end {
            lemma_payload_char(y, i, e, k, end, bel);
            lemma_char_so_far(y, m, k);
            let w = char_width_at(y, k);
            if w > 0 && k + w <= m {
                if k + 1 < m {
                    assert(s[k + 1] == y[k + 1]);
                }
                lemma_string_partial(y, m, i, e, k + w);
            } else if w > 0 {
                if k + 1 < m {
                    assert(s[k + 1] == y[k + 1]);
                }
                lemma_cut_in_string(y, m, i, k, k + 1, bel);
            } else {
                if k + 1 < m {
                    assert(s[k + 1] == y[k + 1]);
                }
                lemma_string_partial(y, m, i, e, k + 1);
            }
        } else {
            assert(m == end + 1);
            assert(string_scan(s, i, m, bel) is Pending);
        }
    }
}

proof fn lemma_cut_in_string(y: Seq<u8>, m: int, i: int, lead: int, k: int, bel: bool)
    requires
        0 <= i < lead < k <= m <= y.len(),
        char_width_at(y, lead) > 0,
        lead + char_width_at(y, lead) > m,
        m - i <= MAX_INCOMPLETE_ESCAPE_BYTES,
    ensures
        string_scan(so_far(y, m), i, k, bel) is Pending,
    decreases m - k,
{
    if k < m {
        lemma_inside_cut(y, m, lead, k);
        lemma_cut_in_string(y, m, i, lead, k + 1, bel);
    }
}

proof fn lemma_string_complete(y: Seq<u8>, m: int, i: int, e: int, k: int)
    requires
        0 <= i,
        i < k,
        e <= m <= y.len(),
        closed_to(y, i),
        whole_string(y.subrange(i, e)),
        e - i <= MAX_INCOMPLETE_ESCAPE_BYTES,
        k <= payload_end(y, i, e),
        payload(y.subrange(i, e), k - i, payload_end(y, i, e) - i, kind_of(y, i).bel()),
    ensures
        string_scan(so_far(y, m), i, k, kind_of(y, i).bel()) == Scan::Complete(e),
    decreases e - k,
{
    let s = so_far(y, m);
    let bel = kind_of(y, i).bel();
    let end = payload_end(y, i, e);
    lemma_string_facts(y, i, e);
    assert(s[k] == y[k]);
    if k < end {
        lemma_payload_char(y, i, e, k, end, bel);
        lemma_char_so_far(y, m, k);
        let w = char_width_at(y, k);
        if w > 0 {
            assert(s[k + 1] == y[k + 1]);
            lemma_string_complete(y, m, i, e, k + w);
        } else {
            assert(s[k + 1] == y[k + 1]);
            lemma_string_complete(y, m, i, e, k + 1);
        }
    } else {
        if end == e - 2 {
            assert(s[k + 1] == y[k + 1]);
        }
        lemma_closed_so_far(y, m, end);
        lemma_outside(s, end);
    }
}

proof fn lemma_escape_partial(y: Seq<u8>, m: int, i: int, e: int, k: int)
    requires
        0 <= i,
        i + 1 <= k <= m < e <= y.len(),
        whole_escape(y.subrange(i, e)),
        e - i <= MAX_INCOMPLETE_NON_STRING_ESCAPE_BYTES,
    ensures
        intermediate_scan(so_far(y, m), i, k) is Pending,
    decreases m - k,
{
    let u = y.subrange(i, e);
    if k < m {
        assert(so_far(y, m)[k] == u[k - i]);
        assert(escape_body(u[k - i]));
        lemma_escape_partial(y, m, i, e, k + 1);
    }
}

proof fn lemma_escape_complete(y: Seq<u8>, m: int, i: int, e: int, k: int)
    requires
        0 <= i,
        i + 1 <= k < e <= m <= y.len(),
        i + 2 < e,
        whole_escape(y.subrange(i, e)),
    ensures
        intermediate_scan(so_far(y, m), i, k) == Scan::Complete(e),
    decreases e - k,
{
    let u = y.subrange(i, e);
    assert(so_far(y, m)[k] == u[k - i]);
    if k < e - 1 {
        assert(escape_body(u[k - i]));
        lemma_escape_complete(y, m, i, e, k + 1);
    }
}

/// A unit that nothing has to be waited for behind its first character.
pub open spec fn plain_unit(u: Seq<u8>) -> bool {
    whole_char(u) || whole_c1(u)
}

/// Enough has come of what begins at `b` to tell that it is a control.
pub open spec fn told(y: Seq<u8>, m: int, b: int) -> bool {
    b < m && (y[b] != 0xc2 || b + 1 < m)
}

/// A control is found complete, or open where it is cut off.
#[verifier::rlimit(80)]
#[verifier::spinoff_prover]
proof fn lemma_scan_so_far(y: Seq<u8>, m: int, i: int, e: int)
    requires
        0 <= i < m <= y.len(),
        i < e <= y.len(),
        closed_to(y, i),
        whole(y.subrange(i, e)),
        !plain_unit(y.subrange(i, e)),
        within_limits(y.subrange(i, e)),
        told(y, m, i),
    ensures
        stateful_from(so_far(y, m), i) == Some(i),
        e <= m ==> scan_at(so_far(y, m), i) == Scan::Complete(e),
        m < e ==> scan_at(so_far(y, m), i) is Pending,
{
    let s = so_far(y, m);
    let u = y.subrange(i, e);
    lemma_closed_so_far(y, m, i);
    lemma_outside(s, i);
    assert(s[i] == y[i] && u[0] == y[i]);
    if i + 1 < e {
        assert(u[1] == y[i + 1]);
    }
    if i + 1 < m {
        assert(s[i + 1] == y[i + 1]);
    }
    if whole_csi(u) {
        if i + csi_width(u) <= m {
            if e <= m {
                lemma_csi_complete(y, m, i, e, i + csi_width(u));
            } else {
                lemma_csi_partial(y, m, i, e, i + csi_width(u));
            }
        }
    } else if whole_escape(u) {
        if i + 1 < m {
            if e > m {
                lemma_escape_partial(y, m, i, e, i + 1);
            } else if i + 2 < e {
                lemma_escape_complete(y, m, i, e, i + 1);
            }
        }
    } else {
        lemma_string_facts(y, i, e);
        let from = i + kind_of(y, i).width();
        if from <= m {
            if e <= m {
                lemma_string_complete(y, m, i, e, from);
            } else {
                lemma_string_partial(y, m, i, e, from);
            }
        }
    }
}

proof fn lemma_stateless_cut(y: Seq<u8>, m: int, lead: int, k: int)
    requires
        0 <= lead < k <= m <= y.len(),
        char_width_at(y, lead) > 0,
        lead + char_width_at(y, lead) > m,
    ensures
        stateful_from(so_far(y, m), k) is None,
    decreases m - k,
{
    if k < m {
        let s = so_far(y, m);
        lemma_inside_cut(y, m, lead, k);
        assert(lead_width(s[k]) == 0);
        lemma_stateless_cut(y, m, lead, k + 1);
    }
}

/// Behind a character the next control is the one behind it, and a C1 control
/// of which only the first byte has come is not told from a character.
proof fn lemma_stateful_char(y: Seq<u8>, m: int, i: int, e: int)
    requires
        0 <= i < m <= y.len(),
        i < e <= y.len(),
        closed_to(y, i),
        whole(y.subrange(i, e)),
        plain_unit(y.subrange(i, e)) || !told(y, m, i),
    ensures
        e <= m ==> stateful_from(so_far(y, m), i) == stateful_from(so_far(y, m), e),
        m < e ==> stateful_from(so_far(y, m), i) is None && char_width_at(y, i) > m - i,
{
    let s = so_far(y, m);
    let u = y.subrange(i, e);
    lemma_closed_so_far(y, m, i);
    lemma_outside(s, i);
    assert(s[i] == y[i] && u[0] == y[i]);
    if i + 1 < e {
        assert(u[1] == y[i + 1]);
    }
    if i + 1 < m {
        assert(s[i + 1] == y[i + 1]);
    }
    if !told(y, m, i) {
        lemma_stateless_end(s, i);
        if whole_char(u) {
            assert(stands_at(y, i, u));
            lemma_char_stands(y, i, u, 0);
        } else {
            lemma_wide_intro(u);
        }
    } else if whole_char(u) && u.len() >= 2 {
        assert(stands_at(y, i, u));
        lemma_char_stands(y, i, u, 0);
        lemma_char_so_far(y, m, i);
        assert(c1_width_at(s, i) == 0);
        if m < e {
            lemma_stateless_cut(y, m, i, i + 1);
        }
    }
}

/// A control whose first byte is `C2` begins with a C1 control in two bytes.
proof fn lemma_wide_intro(u: Seq<u8>)
    requires
        whole_control(u),
        u[0] == 0xc2,
    ensures
        u.len() >= 2,
        c1_byte(u[1]),
{
}

proof fn lemma_stateless_end(s: Seq<u8>, i: int)
    requires
        0 <= i,
        i + 1 == s.len(),
        s[i] == 0xc2,
    ensures
        stateful_from(s, i) is None,
{
    assert(stateful_from(s, i + 1) is None);
}

/// What of sound text has come leaves a control open exactly where its last
/// unit is a control that is cut off.
pub open spec fn open_place(y: Seq<u8>, m: int, b: int) -> Option<int> {
    if told(y, m, b) && control_at(y, b) {
        Some(b)
    } else {
        None
    }
}

#[verifier::rlimit(80)]
#[verifier::spinoff_prover]
proof fn lemma_open_from_so_far(y: Seq<u8>, m: int, i: int)
    requires
        cut_at(y, i),
        brief(rest_of(y, i)),
        i <= m <= y.len(),
    ensures
        open_from(so_far(y, m), i, None) == open_place(y, m, last_cut(y, m, i)),
        oversized_closed_from(so_far(y, m), i, None).0 == so_far(y, m),
    decreases m - i,
{
    let s = so_far(y, m);
    if i < m {
        let e = lemma_brief_next(y, i);
        lemma_cut_closed(y, i);
        if !plain_unit(y.subrange(i, e)) && told(y, m, i) {
            lemma_scan_so_far(y, m, i, e);
            if e <= m {
                lemma_open_from_so_far(y, m, e);
            }
        } else {
            lemma_stateful_char(y, m, i, e);
            assert(y.subrange(i, e)[0] == y[i]);
            if e <= m {
                lemma_open_from_so_far(y, m, e);
                if e < m {
                    lemma_stateful_from(s, e);
                }
            }
        }
    }
}

/// Text that is well formed from `i` on, of which `m` bytes have come.
pub proof fn lemma_so_far(y: Seq<u8>, m: int)
    requires
        well_formed(y),
        0 <= m <= y.len(),
    ensures
        ({
            let b = last_cut(y, m, 0);
            &&& 0 <= b <= m
            &&& cut_at(y, b)
            &&& b < m ==> next_cut(y, b) > m
            &&& open_control(so_far(y, m)) == open_place(y, m, b)
            &&& oversized_closed(so_far(y, m)) == so_far(y, m)
        }),
{
    lemma_cut_ends(y);
    assert(rest_of(y, 0) =~= y);
    lemma_last_cut(y, m, 0);
    lemma_open_from_so_far(y, m, 0);
}

pub proof fn lemma_run_start(s: Seq<u8>, from: int, end: int)
    requires
        0 < from <= end <= s.len(),
        !continuation(s[from - 1]),
        forall|k: int| from <= k < end ==> continuation(#[trigger] s[k]),
    ensures
        continuation_run_start(s, end) == from,
    decreases end - from,
{
    if end > from {
        assert(continuation(s[end - 1]));
        lemma_run_start(s, from, end - 1);
    }
}

/// A character that is cut off is found.
pub proof fn lemma_cut_char_found(y: Seq<u8>, m: int, b: int, e: int)
    requires
        0 <= b < m < e <= y.len(),
        char_width_at(y, b) == e - b,
    ensures
        cut_char_start(so_far(y, m)) == Some(b),
{
    let s = so_far(y, m);
    assert(s[b] == y[b]);
    assert forall|k: int| b + 1 <= k < m implies continuation(#[trigger] s[k]) by {
        lemma_inside_cut(y, m, b, k);
    }
    lemma_run_start(s, b + 1, m);
}

/// Where no character is open, none is cut off.
pub proof fn lemma_closed_not_cut(s: Seq<u8>, i: int)
    requires
        0 <= i <= s.len(),
        closed_to(s, i),
    ensures
        cut_char_start(s) matches Some(q) ==> i <= q,
{
    lemma_run_in_range(s, s.len() as int);
    if let Some(q) = cut_char_start(s) {
        if q < i {
            assert(q + announced_width(s[q]) <= i);
        }
    }
}

proof fn lemma_run_in_range(s: Seq<u8>, end: int)
    requires
        0 <= end <= s.len(),
    ensures
        0 <= continuation_run_start(s, end) <= end,
    decreases end,
{
    if end > 0 && continuation(s[end - 1]) {
        lemma_run_in_range(s, end - 1);
    }
}

/// Sound text ends with no character cut off.
pub proof fn lemma_no_cut_char(s: Seq<u8>)
    requires
        sound(s),
    ensures
        cut_char_start(s) is None,
{
    lemma_sound_closed(s);
    lemma_closed_not_cut(s, s.len() as int);
    lemma_cut_char_in_range(s);
}

proof fn lemma_token_run(s: Seq<u8>, end: int)
    requires
        0 <= end <= s.len(),
    ensures
        0 <= token_start(s, end) <= end,
        forall|k: int| token_start(s, end) <= k < end ==> token_byte(#[trigger] s[k]),
    decreases end,
{
    if end > 0 && token_byte(s[end - 1]) {
        lemma_token_run(s, end - 1);
    }
}

/// The control that covers `index` and begins last before `end`.
proof fn lemma_covering(s: Seq<u8>, index: int, end: int) -> (p: int)
    requires
        0 <= end <= s.len(),
    ensures
        match covering_end(s, index, end) {
            Some(x) => 0 <= p < end && control_covers(s, p, index) && x == control_end(s, p),
            None => p == -1,
        },
        forall|q: int| p < q < end ==> !#[trigger] control_covers(s, q, index),
    decreases end,
{
    if end == 0 {
        -1
    } else if control_covers(s, end - 1, index) {
        end - 1
    } else {
        lemma_covering(s, index, end - 1)
    }
}

/// No C1 control that begins or ends a string begins within a payload.
pub proof fn lemma_payload_inside(s: Seq<u8>, i: int, e: int, k: int, p: int, bel: bool)
    requires
        0 <= i <= k <= p < payload_end(s, i, e),
        payload_end(s, i, e) <= e <= s.len(),
        payload(s.subrange(i, e), k - i, payload_end(s, i, e) - i, bel),
    ensures
        string_c1(s[p]) ==> inside_char(s, p),
        s[p] == 0xc2 ==> p + 1 < s.len() && !string_c1(s[p + 1]),
    decreases p - k,
{
    let end = payload_end(s, i, e);
    lemma_payload_char(s, i, e, k, end, bel);
    let w = char_width_at(s, k);
    if w > 0 {
        if p < k + w {
            if p > k {
                lemma_inside_whole(s, k, p);
                assert(continuation(s[p]));
            }
        } else {
            lemma_payload_inside(s, i, e, k + w, p, bel);
        }
    } else if p > k {
        lemma_payload_inside(s, i, e, k + 1, p, bel);
    }
}

/// In a unit other than a control string, no control begins but the unit itself.
#[verifier::rlimit(80)]
#[verifier::spinoff_prover]
proof fn lemma_control_of_unit(s: Seq<u8>, b: int, e: int, p: int)
    requires
        0 <= b <= p < e <= s.len(),
        whole(s.subrange(b, e)),
        !whole_string(s.subrange(b, e)),
        control_at(s, p),
        !inside_char(s, p),
    ensures
        p == b,
{
    let u = s.subrange(b, e);
    assert(u[p - b] == s[p]);
    assert(u[0] == s[b]);
    if p > b {
        assert(u[1] == s[b + 1]);
        if u[0] == 0xc2 && c1_byte(u[1]) {
            assert(char_width_at(s, b) == 2);
            if p == b + 1 {
                lemma_inside_whole(s, b, p);
            }
        }
        if whole_char(u) {
            assert(stands_at(s, b, u));
            lemma_char_stands(s, b, u, 0);
            lemma_inside_whole(s, b, p);
        } else if whole_csi(u) {
            if csi_width(u) <= p - b < u.len() - 1 {
                assert(csi_body(u[p - b]));
            }
        } else if whole_escape(u) {
            if u.len() > 2 && p - b < u.len() - 1 {
                assert(escape_body(u[p - b]));
            }
        }
    }
}

/// Text can be cut between any two bytes of a token at its end.
proof fn lemma_token_cuts(s: Seq<u8>, from: int, x: int)
    requires
        cut_at(s, from),
        from <= x <= s.len(),
        forall|k: int| from <= k < s.len() ==> token_byte(#[trigger] s[k]),
    ensures
        cut_at(s, x),
    decreases x - from,
{
    if from < x {
        assert(token_byte(s[from]));
        lemma_next_cut(s, from);
        lemma_token_cuts(s, from + 1, x);
    }
}

/// Where a stream cuts sound text, it can be cut.
#[verifier::rlimit(80)]
#[verifier::spinoff_prover]
pub proof fn lemma_split_sound(s: Seq<u8>)
    requires
        sound(s),
        open_control(s) is None,
    ensures
        cut_at(s, stream_split(s)),
{
    lemma_cut_ends(s);
    lemma_no_cut_char(s);
    let len = s.len() as int;
    if len > 0 {
        lemma_token_run(s, len);
        let run = token_start(s, len);
        let p = lemma_covering(s, run, run);
        if p >= 0 {
            lemma_control_end(s, p);
        }
        if run < len {
            assert(token_byte(s[run]));
            let (b, e) = lemma_unit_at(s, run);
            let u = s.subrange(b, e);
            lemma_cut_closed(s, b);
            if b < run {
                assert(u[run - b] == s[run] && u[0] == s[b]);
                assert(u.last() == s[e - 1] && token_byte(s[e - 1]));
                if whole_char(u) {
                    assert(continuation(u[run - b]));
                    assert(false);
                }
                lemma_outside(s, b);
                assert(control_covers(s, b, run));
                lemma_control_of_unit(s, b, e, p);
            } else if p >= 0 {
                lemma_token_cuts(s, run, control_end(s, p));
            }
        }
    }
}

/// What has come of a unit that is not told to be a control is a character that
/// is cut off.
pub proof fn lemma_char_cut_off(y: Seq<u8>, m: int, b: int)
    requires
        cut_at(y, b),
        b < m <= y.len(),
        next_cut(y, b) > m,
        open_place(y, m, b) is None,
    ensures
        cut_char_start(so_far(y, m)) == Some(b),
{
    let e = lemma_next_cut(y, b);
    let u = y.subrange(b, e);
    assert(u[0] == y[b]);
    if control_at(y, b) {
        lemma_wide_intro(u);
        assert(u[1] == y[b + 1]);
        lemma_cut_char_found(y, m, b, b + 2);
    } else {
        assert(stands_at(y, b, u));
        lemma_char_stands(y, b, u, 0);
        lemma_cut_char_found(y, m, b, e);
    }
}

/// What a stream knows of well-formed text of which `m` bytes have come: where
/// the last complete unit ends, and that it cuts the text at such a place.
pub proof fn lemma_split_so_far(y: Seq<u8>, m: int)
    requires
        well_formed(y),
        0 <= m <= y.len(),
    ensures
        cut_at(y, stream_split(so_far(y, m))),
        stream_split(so_far(y, m)) <= m,
        last_cut(y, m, 0) < m ==> stream_split(so_far(y, m)) == last_cut(y, m, 0),
{
    let s = so_far(y, m);
    let b = last_cut(y, m, 0);
    lemma_so_far(y, m);
    if m > 0 {
        if b < m {
            if open_place(y, m, b) is None {
                lemma_char_cut_off(y, m, b);
            }
        } else {
            lemma_split_sound(s);
            lemma_cut_of_prefix(y, m, stream_split(s));
        }
    } else {
        lemma_cut_ends(y);
    }
}

/// A place where the beginning can be cut is one where all can be cut.
pub proof fn lemma_cut_of_prefix(y: Seq<u8>, m: int, k: int)
    requires
        cut_at(y, m),
        cut_at(so_far(y, m), k),
    ensures
        cut_at(y, k),
{
    let s = so_far(y, m);
    assert(y.subrange(0, k) =~= s.subrange(0, k));
    assert(rest_of(y, k) =~= rest_of(s, k) + rest_of(y, m));
    lemma_sound_concat(rest_of(s, k), rest_of(y, m));
}

/// Feeding `y` from `k` on, the byte before `e` ends the string, and none
/// before it does.
pub open spec fn runs_to(p: StringPayloadScanner, y: Seq<u8>, k: int, e: int) -> bool
    decreases e - k,
{
    0 <= k < e && if k == e - 1 {
        p.fed(y[k]).1 is After
    } else {
        p.fed(y[k]).1 is Go && runs_to(p.fed(y[k]).0, y, k + 1, e)
    }
}

/// The scanner behind the bytes from `k` up to `m`.
pub open spec fn fed_to(p: StringPayloadScanner, y: Seq<u8>, k: int, m: int) -> StringPayloadScanner
    decreases m - k,
{
    if k >= m {
        p
    } else {
        fed_to(p.fed(y[k]).0, y, k + 1, m)
    }
}

proof fn lemma_runs_complete(p: StringPayloadScanner, y: Seq<u8>, s: Seq<u8>, k: int, e: int, total: int)
    requires
        runs_to(p, y, k, e),
        e <= s.len(),
        e <= y.len(),
        forall|j: int| k <= j < e ==> #[trigger] s[j] == y[j],
        total + (e - k) <= MAX_INCOMPLETE_ESCAPE_BYTES,
    ensures
        tracked_run(p, s, k, total).2 == TrackedScan::Complete(e),
    decreases e - k,
{
    assert(s[k] == y[k]);
    if k < e - 1 {
        lemma_runs_complete(p.fed(y[k]).0, y, s, k + 1, e, total + 1);
    }
}

proof fn lemma_runs_partial(p: StringPayloadScanner, y: Seq<u8>, m: int, k: int, e: int, total: int)
    requires
        runs_to(p, y, k, e),
        k <= m < e <= y.len(),
        total + (e - k) <= MAX_INCOMPLETE_ESCAPE_BYTES,
    ensures
        tracked_run(p, so_far(y, m), k, total) == (
            fed_to(p, y, k, m),
            total + (m - k),
            TrackedScan::Incomplete,
        ),
        runs_to(fed_to(p, y, k, m), y, m, e),
    decreases m - k,
{
    if k < m {
        assert(so_far(y, m)[k] == y[k]);
        lemma_runs_partial(p.fed(y[k]).0, y, m, k + 1, e, total + 1);
    }
}

/// The scanner is between two characters.
pub open spec fn rested(p: StringPayloadScanner, bel: bool) -> bool {
    &&& p.allows_bel == bel
    &&& p.utf8_remaining == 0
    &&& !p.utf8_raw_st_pending
    &&& p.replay_len == 0
    &&& !p.utf8_c1_st_possible
}

proof fn lemma_fed_char(p: StringPayloadScanner, y: Seq<u8>, k: int, bel: bool)
    requires
        rested(p, bel),
        0 <= k < y.len(),
        char_width_at(y, k) > 0,
        !(y[k] == 0xc2 && string_c1(y[k + 1])),
    ensures
        ({
            let w = char_width_at(y, k);
            &&& rested(fed_to(p, y, k, k + w), bel)
            &&& !fed_to(p, y, k, k + w).saw_escape
            &&& forall|e: int|
                k + w < e && runs_to(fed_to(p, y, k, k + w), y, k + w, e) ==> #[trigger] runs_to(
                    p,
                    y,
                    k,
                    e,
                )
        }),
{
    let w = char_width_at(y, k);
    let p1 = p.fed(y[k]).0;
    let p2 = p1.fed(y[k + 1]).0;
    reveal_with_fuel(fed_to, 5);
    assert(p.fed(y[k]).1 is Go);
    assert(p1.fed(y[k + 1]).1 is Go);
    if w >= 3 {
        let p3 = p2.fed(y[k + 2]).0;
        assert(p2.fed(y[k + 2]).1 is Go);
        if w >= 4 {
            assert(p3.fed(y[k + 3]).1 is Go);
        }
    }
    assert forall|e: int|
        k + w < e && runs_to(fed_to(p, y, k, k + w), y, k + w, e) implies #[trigger] runs_to(
        p,
        y,
        k,
        e,
    ) by {
        reveal_with_fuel(runs_to, 6);
    }
}

proof fn lemma_string_runs(p: StringPayloadScanner, y: Seq<u8>, i: int, e: int, k: int)
    requires
        0 <= i,
        i < k <= payload_end(y, i, e),
        e <= y.len(),
        closed_to(y, i),
        whole_string(y.subrange(i, e)),
        payload(y.subrange(i, e), k - i, payload_end(y, i, e) - i, kind_of(y, i).bel()),
        rested(p, kind_of(y, i).bel()),
        p.saw_escape ==> y[k] != 0x5c,
    ensures
        runs_to(p, y, k, e),
    decreases e - k,
{
    let bel = kind_of(y, i).bel();
    let end = payload_end(y, i, e);
    lemma_string_facts(y, i, e);
    if k < end {
        lemma_payload_char(y, i, e, k, end, bel);
        let w = char_width_at(y, k);
        if w > 0 {
            lemma_fed_char(p, y, k, bel);
            lemma_string_runs(fed_to(p, y, k, k + w), y, i, e, k + w);
        } else {
            assert(lead_width(y[k]) == 0);
            lemma_string_runs(p.fed(y[k]).0, y, i, e, k + 1);
        }
    } else {
        reveal_with_fuel(runs_to, 3);
    }
}

/// What is known of a control string that began at the start of `y`, of which
/// `m` bytes have come.
pub open spec fn tracks(mode: OversizedStringControlMode, y: Seq<u8>, m: int) -> bool {
    match mode {
        OversizedStringControlMode::Normal => true,
        OversizedStringControlMode::Tracking(t) => {
            &&& m >= t.kind.width()
            &&& m < next_cut(y, 0) <= y.len()
            &&& whole_string(y.subrange(0, next_cut(y, 0)))
            &&& next_cut(y, 0) <= MAX_INCOMPLETE_ESCAPE_BYTES
            &&& t.carry_offset == 0
            &&& t.total_bytes == m
            &&& string_kind_at(y, 0) == Some(t.kind)
            &&& runs_to(t.payload, y, m, next_cut(y, 0))
        },
        OversizedStringControlMode::Discarding(_) => false,
    }
}

/// The mode that the filter is left in.
#[verifier::rlimit(80)]
#[verifier::spinoff_prover]
proof fn lemma_filtered_from(y: Seq<u8>, m: int, i: int)
    requires
        cut_at(y, i),
        brief(rest_of(y, i)),
        i <= m <= y.len(),
        m <= usize::MAX,
    ensures
        ({
            let b = last_cut(y, m, i);
            let (out, mode) = filtered_from(so_far(y, m), i, 0, None, Seq::empty());
            &&& out == so_far(y, m)
            &&& tracks(mode, rest_of(y, b), m - b)
            &&& mode is Tracking ==> b < m && control_at(y, b)
        }),
    decreases m - i,
{
    let s = so_far(y, m);
    assert(Seq::<u8>::empty() + tail(s, 0) =~= s);
    if i < m {
        let e = lemma_brief_next(y, i);
        let u = y.subrange(i, e);
        assert(u[0] == y[i] && s[i] == y[i]);
        lemma_cut_closed(y, i);
        if !plain_unit(u) && told(y, m, i) {
            lemma_scan_so_far(y, m, i, e);
            if i + 1 < e {
                assert(u[1] == y[i + 1]);
            }
            if i + 1 < m {
                assert(s[i + 1] == y[i + 1]);
            }
            if e <= m {
                lemma_filtered_from(y, m, e);
            }
            if whole_string(u) {
                lemma_string_facts(y, i, e);
                let kind = kind_of(y, i);
                let from = i + kind.width();
                if from <= m {
                    assert(string_kind_at(s, i) == Some(kind));
                    let p = StringPayloadScanner::fresh(kind.bel());
                    lemma_string_runs(p, y, i, e, from);
                    if e <= m {
                        lemma_runs_complete(p, y, s, from, e, kind.width());
                    } else {
                        lemma_runs_partial(p, y, m, from, e, kind.width());
                        let x = rest_of(y, i);
                        assert(stands_at(x, 0, u));
                        lemma_unit_stands(x, 0, u);
                        assert(next_cut(x, 0) == e - i);
                        assert(x.subrange(0, e - i) =~= u);
                        assert(string_kind_at(x, 0) == Some(kind)) by {
                            assert(x[0] == y[i]);
                            if i + 1 < y.len() {
                                assert(x[1] == y[i + 1]);
                            }
                        }
                        lemma_runs_shift(fed_to(p, y, from, m), y, i, m, e);
                    }
                } else {
                    assert(string_kind_at(s, i) is None);
                }
            } else {
                assert(string_kind_at(s, i) is None);
            }
        } else {
            lemma_stateful_char(y, m, i, e);
            if e <= m {
                lemma_filtered_from(y, m, e);
                if e < m {
                    lemma_stateful_from(s, e);
                }
            }
        }
    }
}

proof fn lemma_runs_shift(p: StringPayloadScanner, y: Seq<u8>, i: int, k: int, e: int)
    requires
        0 <= i <= k,
        e <= y.len(),
        runs_to(p, y, k, e),
    ensures
        runs_to(p, rest_of(y, i), k - i, e - i),
    decreases e - k,
{
    assert(rest_of(y, i)[k - i] == y[k]);
    if k < e - 1 {
        lemma_runs_shift(p.fed(y[k]).0, y, i, k + 1, e);
    }
}

/// A control string that was being followed goes on as the first unit.
proof fn lemma_followed_string(followed: TrackedStringControl, y: Seq<u8>, had: int, m: int)
    requires
        well_formed(y),
        0 <= had <= m <= y.len(),
        m <= usize::MAX,
        tracks(OversizedStringControlMode::Tracking(followed), y, had),
    ensures
        cut_at(y, 0),
        y.len() > 0,
        kind_matches(followed.kind, so_far(y, m), 0),
{
    let s = so_far(y, m);
    lemma_cut_ends(y);
    assert(rest_of(y, 0) =~= y);
    let e = lemma_brief_next(y, 0);
    lemma_string_facts(y, 0, e);
    assert(s[0] == y[0]);
    if followed.kind.width() >= 2 {
        assert(s[1] == y[1]);
    }
}

/// A filter lets all of well-formed text through, however it arrives: `had`
/// bytes were there before, `m` are there now.
#[verifier::rlimit(80)]
#[verifier::spinoff_prover]
pub proof fn lemma_filter_passes(mode: OversizedStringControlMode, y: Seq<u8>, had: int, m: int)
    requires
        well_formed(y),
        0 <= had <= m <= y.len(),
        m <= usize::MAX,
        tracks(mode, y, had),
    ensures
        ({
            let b = last_cut(y, m, 0);
            let (out, next) = filtered(mode, so_far(y, m));
            &&& out == so_far(y, m)
            &&& tracks(next, rest_of(y, b), m - b)
            &&& next is Tracking ==> b < m && control_at(y, b)
        }),
{
    let s = so_far(y, m);
    lemma_cut_ends(y);
    assert(rest_of(y, 0) =~= y);
    lemma_filtered_from(y, m, 0);
    if let OversizedStringControlMode::Tracking(followed) = mode {
        lemma_followed_string(followed, y, had, m);
        let e = lemma_brief_next(y, 0);
        let t = followed.aligned(s)->Some_0;
        if e <= m {
            lemma_runs_complete(t.payload, y, s, had, e, had);
            lemma_filtered_from(y, m, e);
            assert(last_cut(y, m, 0) == last_cut(y, m, e));
        } else {
            lemma_runs_partial(t.payload, y, m, had, e, had);
            assert(last_cut(y, m, 0) == 0);
        }
    }
}

proof fn lemma_brief_concat(a: Seq<u8>, b: Seq<u8>)
    requires
        sound(a),
    ensures
        brief(a + b) == (brief(a) && brief(b)),
    decreases a.len(),
{
    if a.len() == 0 {
        assert(a + b =~= b);
    } else {
        let n = lemma_sound_split(a);
        let u = a.subrange(0, n);
        let rest = rest_of(a, n);
        lemma_brief_concat(rest, b);
        lemma_sound_unit(u, rest + b);
        lemma_sound_unit(u, rest);
        assert(u + (rest + b) =~= a + b);
    }
}

pub proof fn lemma_well_formed_concat(a: Seq<u8>, b: Seq<u8>)
    requires
        well_formed(a),
        well_formed(b),
    ensures
        well_formed(a + b),
{
    lemma_sound_concat(a, b);
    lemma_brief_concat(a, b);
}

/// Where well-formed text can be cut, both parts are well formed.
pub proof fn lemma_well_formed_cut(s: Seq<u8>, k: int)
    requires
        well_formed(s),
        cut_at(s, k),
    ensures
        well_formed(s.subrange(0, k)),
        well_formed(rest_of(s, k)),
{
    assert(s.subrange(0, k) + rest_of(s, k) =~= s);
    lemma_brief_concat(s.subrange(0, k), rest_of(s, k));
}

/// Well-formed text that has all come leaves nothing open.
pub proof fn lemma_well_formed_whole(s: Seq<u8>)
    requires
        well_formed(s),
    ensures
        open_control(s) is None,
        cut_char_start(s) is None,
        oversized_closed(s) == s,
        cut_at(s, stream_split(s)),
{
    let m = s.len() as int;
    lemma_so_far(s, m);
    let b = last_cut(s, m, 0);
    if b < m {
        lemma_next_cut(s, b);
    }
    assert(so_far(s, m) =~= s);
    lemma_split_sound(s);
    lemma_no_cut_char(s);
}

/// No carriage return stands within a control.
pub open spec fn returns_shown(x: Seq<u8>) -> bool {
    forall|p: int| 0 <= p < x.len() && #[trigger] x[p] == 0x0d ==> cut_at(x, p)
}

/// Text that is well formed and, where someone types at the other end, holds
/// no carriage return within a control.
pub open spec fn fit(x: Seq<u8>, live: bool) -> bool {
    well_formed(x) && (live ==> returns_shown(x))
}

pub proof fn lemma_fit_concat(a: Seq<u8>, b: Seq<u8>, live: bool)
    requires
        fit(a, live),
        fit(b, live),
    ensures
        fit(a + b, live),
{
    let x = a + b;
    lemma_well_formed_concat(a, b);
    if live {
        let n = a.len() as int;
        assert(so_far(x, n) =~= a);
        assert(rest_of(x, n) =~= b);
        assert forall|p: int| 0 <= p < x.len() && #[trigger] x[p] == 0x0d implies cut_at(x, p) by {
            if p < n {
                assert(a[p] == 0x0d);
                lemma_cut_of_prefix(x, n, p);
            } else {
                assert(b[p - n] == 0x0d);
                lemma_cut_within(x, n, p - n);
            }
        }
    }
}

/// Where fit text can be cut, both parts are fit.
pub proof fn lemma_fit_cut(s: Seq<u8>, k: int, live: bool)
    requires
        fit(s, live),
        cut_at(s, k),
    ensures
        fit(s.subrange(0, k), live),
        fit(rest_of(s, k), live),
{
    lemma_well_formed_cut(s, k);
    if live {
        let a = s.subrange(0, k);
        let b = rest_of(s, k);
        assert forall|p: int| 0 <= p < a.len() && #[trigger] a[p] == 0x0d implies cut_at(a, p) by {
            assert(s[p] == 0x0d);
            lemma_between(s, p, k);
            assert(a.subrange(0, p) =~= s.subrange(0, p));
            assert(rest_of(a, p) =~= s.subrange(p, k));
        }
        assert forall|p: int| 0 <= p < b.len() && #[trigger] b[p] == 0x0d implies cut_at(b, p) by {
            assert(s[k + p] == 0x0d);
            lemma_between(s, k, k + p);
            assert(b.subrange(0, p) =~= s.subrange(k, k + p));
            assert(rest_of(b, p) =~= rest_of(s, k + p));
        }
    }
}

} // verus!
