//! What sanitizing leaves: everything but control strings.

use vstd::prelude::*;

use crate::arrival::lemma_run_start;
use crate::bytes::{
    lemma_subsequence_concat, lemma_subsequence_empty, lemma_subsequence_self, subsequence,
};
use crate::controls::{c1_code_at, c1_width_at, cancels, control_at, text_unit_end};
use crate::escapes::{
    csi_scan, intermediate_scan, lemma_csi_scan, lemma_intermediate_scan, lemma_scan_at,
    lemma_shift_scan, scan_at, shift_scan, string_kind_at, Scan,
};
use crate::sanitize::{chain_from, lemma_chain_from, sanitized, sanitized_from, Chain};
use crate::utf8::{char_width_at, continuation, continuation_run_start, lead_width};

verus! {

/// From `i` on, the text holds no control string and no cancelled control that
/// leads to one.
pub open spec fn stringless_from(t: Seq<u8>, i: int) -> bool
    decreases t.len() - i,
{
    if !(0 <= i < t.len()) {
        true
    } else if control_at(t, i) {
        proof {
            lemma_chain_from(t, i);
        }
        match chain_from(t, i) {
            Chain::Drop(_) => false,
            Chain::Keep(end) => stringless_from(t, end),
        }
    } else {
        stringless_from(t, text_unit_end(t, i))
    }
}

/// The text ends within a character that more bytes could complete.
pub open spec fn broken_off(k: Seq<u8>) -> bool {
    let run = continuation_run_start(k, k.len() as int);
    run > 0 && k.len() - run + 1 < lead_width(k[run - 1])
}

/// The text begins with a byte that could go on a character.
pub open spec fn goes_on(r: Seq<u8>) -> bool {
    r.len() > 0 && continuation(r[0])
}

/// From `i` on, no character that is broken off meets a byte that could go on
/// it where a control string between them is dropped. What is kept stands
/// together from `from` on.
pub open spec fn seamless_from(s: Seq<u8>, from: int, i: int) -> bool
    decreases s.len() - i,
{
    if !(0 <= i < s.len()) {
        true
    } else if control_at(s, i) {
        proof {
            lemma_chain_from(s, i);
        }
        match chain_from(s, i) {
            Chain::Drop(end) => !(broken_off(s.subrange(from, i)) && goes_on(
                sanitized_from(s, end),
            )) && seamless_from(s, end, end),
            Chain::Keep(end) => seamless_from(s, from, end),
        }
    } else {
        seamless_from(s, from, text_unit_end(s, i))
    }
}

/// No character that is broken off before a dropped control string meets what
/// follows it.
pub open spec fn seamless(s: Seq<u8>) -> bool {
    seamless_from(s, 0, 0)
}

/// From `i` on, where the next control string begins that is dropped, with the
/// cancelled controls that lead to it.
spec fn next_drop(s: Seq<u8>, i: int) -> int
    decreases s.len() - i,
{
    if !(0 <= i < s.len()) {
        s.len() as int
    } else if control_at(s, i) {
        proof {
            lemma_chain_from(s, i);
        }
        match chain_from(s, i) {
            Chain::Drop(_) => i,
            Chain::Keep(end) => next_drop(s, end),
        }
    } else {
        next_drop(s, text_unit_end(s, i))
    }
}

/// What is kept behind the control string at `p`.
spec fn behind_drop(s: Seq<u8>, p: int) -> Seq<u8> {
    if p < s.len() {
        sanitized_from(s, chain_from(s, p)->Drop_0)
    } else {
        Seq::empty()
    }
}

proof fn lemma_next_drop(s: Seq<u8>, from: int, i: int)
    requires
        0 <= from <= i <= s.len(),
        seamless_from(s, from, i),
    ensures
        i <= next_drop(s, i) <= s.len(),
        sanitized_from(s, i) == s.subrange(i, next_drop(s, i)) + behind_drop(s, next_drop(s, i)),
        !(broken_off(s.subrange(from, next_drop(s, i))) && goes_on(
            behind_drop(s, next_drop(s, i)),
        )),
    decreases s.len() - i,
{
    let p = next_drop(s, i);
    if i < s.len() {
        lemma_chain_from(s, i);
        if control_at(s, i) && chain_from(s, i) is Drop {
            assert(s.subrange(i, i) + behind_drop(s, i) =~= behind_drop(s, i));
        } else {
            let e = if control_at(s, i) {
                chain_from(s, i)->Keep_0
            } else {
                text_unit_end(s, i)
            };
            lemma_next_drop(s, from, e);
            assert(s.subrange(i, e) + (s.subrange(e, p) + behind_drop(s, p)) =~= s.subrange(i, p)
                + behind_drop(s, p));
        }
    } else {
        assert(s.subrange(i, p) + behind_drop(s, p) =~= Seq::<u8>::empty());
    }
}

/// `y` ends in `r`, which begins at `n`.
spec fn tail_at(y: Seq<u8>, n: int, r: Seq<u8>) -> bool {
    &&& 0 <= n
    &&& y.len() == n + r.len()
    &&& forall|k: int| 0 <= k < r.len() ==> #[trigger] y[n + k] == r[k]
}

proof fn lemma_local(y: Seq<u8>, n: int, r: Seq<u8>, i: int)
    requires
        tail_at(y, n, r),
        0 <= i < r.len(),
    ensures
        y[n + i] == r[i],
        control_at(y, n + i) == control_at(r, i),
        c1_width_at(y, n + i) == c1_width_at(r, i),
        c1_width_at(r, i) > 0 ==> c1_code_at(y, n + i) == c1_code_at(r, i),
        char_width_at(y, n + i) == char_width_at(r, i),
        string_kind_at(y, n + i) == string_kind_at(r, i),
        i + 1 < r.len() ==> y[n + i + 1] == r[i + 1],
{
    assert(y[n + i] == r[i]);
    assert(i + 1 < r.len() ==> y[n + (i + 1)] == r[i + 1]);
    assert(i + 2 < r.len() ==> y[n + (i + 2)] == r[i + 2]);
    assert(i + 3 < r.len() ==> y[n + (i + 3)] == r[i + 3]);
}

/// The scan with all offsets moved by `n`.
spec fn moved(scan: Scan, n: int) -> Scan {
    match scan {
        Scan::Complete(end) => Scan::Complete(end + n),
        Scan::Restart(at) => Scan::Restart(at + n),
        other => other,
    }
}

proof fn lemma_csi_moved(y: Seq<u8>, n: int, r: Seq<u8>, start: int, i: int)
    requires
        tail_at(y, n, r),
        0 <= i,
    ensures
        csi_scan(y, n + start, n + i) == moved(csi_scan(r, start, i), n),
    decreases r.len() - i,
{
    if i < r.len() {
        lemma_local(y, n, r, i);
        if !control_at(r, i) {
            if char_width_at(r, i) > 0 {
                lemma_csi_moved(y, n, r, start, i + char_width_at(r, i));
            } else {
                lemma_csi_moved(y, n, r, start, i + 1);
            }
        }
    }
}

proof fn lemma_shift_moved(y: Seq<u8>, n: int, r: Seq<u8>, start: int, i: int)
    requires
        tail_at(y, n, r),
        0 <= i,
    ensures
        shift_scan(y, n + start, n + i) == moved(shift_scan(r, start, i), n),
    decreases r.len() - i,
{
    if i < r.len() {
        lemma_local(y, n, r, i);
        let a = y.subrange(n + i, y.len() as int);
        let b = r.subrange(i, r.len() as int);
        assert forall|k: int| 0 <= k < b.len() implies a[k] == b[k] by {
            assert(y[n + (i + k)] == r[i + k]);
        }
        assert(a =~= b);
        lemma_shift_moved(y, n, r, start, i + 1);
    }
}

proof fn lemma_intermediate_moved(y: Seq<u8>, n: int, r: Seq<u8>, start: int, i: int)
    requires
        tail_at(y, n, r),
        0 <= i,
    ensures
        intermediate_scan(y, n + start, n + i) == moved(intermediate_scan(r, start, i), n),
    decreases r.len() - i,
{
    if i < r.len() {
        lemma_local(y, n, r, i);
        lemma_intermediate_moved(y, n, r, start, i + 1);
    }
}

proof fn lemma_scan_moved(y: Seq<u8>, n: int, r: Seq<u8>, i: int)
    requires
        tail_at(y, n, r),
        0 <= i < r.len(),
        string_kind_at(r, i) is None,
    ensures
        scan_at(y, n + i) == moved(scan_at(r, i), n),
{
    lemma_local(y, n, r, i);
    let w = c1_width_at(r, i);
    lemma_csi_moved(y, n, r, i, i + w);
    lemma_csi_moved(y, n, r, i, i + 2);
    lemma_shift_moved(y, n, r, i, i + w);
    lemma_shift_moved(y, n, r, i, i + 2);
    lemma_intermediate_moved(y, n, r, i, i + 1);
    if i + 1 < r.len() {
        lemma_local(y, n, r, i + 1);
    }
}

/// A chain that stays is the same behind other text.
proof fn lemma_chain_moved(y: Seq<u8>, n: int, r: Seq<u8>, i: int)
    requires
        tail_at(y, n, r),
        0 <= i < r.len(),
    ensures
        chain_from(r, i) is Keep == chain_from(y, n + i) is Keep,
        chain_from(r, i) matches Chain::Keep(end) ==> chain_from(y, n + i) == Chain::Keep(end + n),
    decreases r.len() - i,
{
    lemma_local(y, n, r, i);
    if string_kind_at(r, i) is None {
        lemma_scan_at(r, i);
        lemma_scan_moved(y, n, r, i);
        if let Scan::Restart(at) = scan_at(r, i) {
            lemma_chain_moved(y, n, r, at);
        }
    }
}

proof fn lemma_stringless_moved(y: Seq<u8>, n: int, r: Seq<u8>, i: int)
    requires
        tail_at(y, n, r),
        0 <= i,
        stringless_from(r, i),
    ensures
        stringless_from(y, n + i),
    decreases r.len() - i,
{
    if i < r.len() {
        lemma_local(y, n, r, i);
        if control_at(r, i) {
            lemma_chain_from(r, i);
            lemma_chain_moved(y, n, r, i);
            if let Chain::Keep(end) = chain_from(r, i) {
                lemma_stringless_moved(y, n, r, end);
            }
        } else {
            lemma_stringless_moved(y, n, r, text_unit_end(r, i));
        }
    }
}

/// The two texts have the same first `n` bytes. In these, `t` has no character
/// and no control that `x` has not.
spec fn alike(x: Seq<u8>, t: Seq<u8>, n: int) -> bool {
    &&& 0 <= n <= x.len()
    &&& n <= t.len()
    &&& forall|k: int| 0 <= k < n ==> #[trigger] t[k] == x[k]
    &&& forall|k: int|
        0 <= k < n && char_width_at(x, k) == 0 ==> #[trigger] char_width_at(t, k) == 0
    &&& forall|k: int| 0 <= k < n && !control_at(x, k) ==> !#[trigger] control_at(t, k)
}

/// What is kept of a text is like the text up to the next string that is
/// dropped.
proof fn lemma_alike(s: Seq<u8>, from: int, i: int)
    requires
        0 <= from <= i <= s.len(),
        seamless_from(s, from, i),
    ensures
        alike(s.subrange(i, s.len() as int), sanitized_from(s, i), next_drop(s, i) - i),
        next_drop(s, i) >= i,
{
    let p = next_drop(s, i);
    let x = s.subrange(i, s.len() as int);
    let t = sanitized_from(s, i);
    let c = p - i;
    let kept = s.subrange(from, p);
    let r = behind_drop(s, p);
    lemma_next_drop(s, from, i);
    assert forall|k: int| 0 <= k < c implies #[trigger] t[k] == x[k] by {
        assert(t[k] == s.subrange(i, p)[k]);
    }
    assert(t.len() > c ==> t[c] == r[0]);
    assert forall|k: int| 0 <= k < c && char_width_at(x, k) == 0 implies #[trigger] char_width_at(
        t,
        k,
    ) == 0 by {
        let w = lead_width(x[k]);
        assert(t[k] == x[k]);
        if char_width_at(t, k) > 0 {
            assert(forall|j: int| k < j < k + w ==> continuation(#[trigger] t[j]));
            if k + w <= c {
                assert(t[k + 1] == x[k + 1]);
                assert(w >= 3 ==> t[k + 2] == x[k + 2]);
                assert(w >= 4 ==> t[k + 3] == x[k + 3]);
            } else {
                lemma_broken_at(s, from, p, i + k, t, i);
            }
        }
    }
    assert forall|k: int| 0 <= k < c && !control_at(x, k) implies !#[trigger] control_at(t, k) by {
        assert(t[k] == x[k]);
        if control_at(t, k) {
            if k + 1 < c {
                assert(t[k + 1] == x[k + 1]);
            } else {
                lemma_broken_at(s, from, p, i + k, t, i);
            }
        }
    }
}

/// A character at `k` that only continuation bytes follow is broken off.
proof fn lemma_broken_at(s: Seq<u8>, from: int, p: int, k: int, t: Seq<u8>, i: int)
    requires
        0 <= from <= i <= k < p <= s.len(),
        k + lead_width(s[k]) > p,
        p - i <= t.len(),
        forall|j: int| 0 <= j < p - i ==> #[trigger] t[j] == s[i + j],
        forall|j: int| k < j < p ==> continuation(#[trigger] t[j - i]),
    ensures
        broken_off(s.subrange(from, p)),
{
    let kept = s.subrange(from, p);
    assert forall|j: int| k + 1 - from <= j < kept.len() implies continuation(#[trigger] kept[j]) by {
        assert(kept[j] == s[from + j]);
        let q = from + j;
        assert(t[q - i] == s[i + (q - i)]);
        assert(continuation(t[q - i]));
    }
    assert(kept[k - from] == s[k]);
    lemma_run_start(kept, k + 1 - from, kept.len() as int);
}

/// The scan has an end within the first `n` bytes: where it is cut short by
/// another control, that one begins there.
spec fn ends_within(x: Seq<u8>, scan: Scan, n: int) -> bool {
    match scan {
        Scan::Complete(end) => end <= n,
        Scan::Restart(at) => at + c1_width_at(x, at) <= n && at < n,
        _ => false,
    }
}

proof fn lemma_same_control(x: Seq<u8>, t: Seq<u8>, n: int, i: int)
    requires
        alike(x, t, n),
        0 <= i < n,
        control_at(x, i) ==> i + c1_width_at(x, i) <= n,
    ensures
        control_at(t, i) == control_at(x, i),
        control_at(x, i) && x[i] != 0x1b ==> c1_width_at(t, i) == c1_width_at(x, i) && c1_code_at(
            t,
            i,
        ) == c1_code_at(x, i),
        char_width_at(x, i) == 0 ==> char_width_at(t, i) == 0,
        char_width_at(x, i) > 0 && i + char_width_at(x, i) <= n ==> char_width_at(t, i)
            == char_width_at(x, i),
{
    assert(t[i] == x[i]);
    assert(i + 1 < n ==> t[i + 1] == x[i + 1]);
    assert(i + 2 < n ==> t[i + 2] == x[i + 2]);
    assert(i + 3 < n ==> t[i + 3] == x[i + 3]);
}

proof fn lemma_csi_same(x: Seq<u8>, t: Seq<u8>, n: int, start: int, i: int)
    requires
        alike(x, t, n),
        0 <= i <= x.len(),
        ends_within(x, csi_scan(x, start, i), n),
    ensures
        csi_scan(t, start, i) == csi_scan(x, start, i),
    decreases x.len() - i,
{
    lemma_csi_scan(x, start, i);
    if i < x.len() {
        let w = char_width_at(x, i);
        if !control_at(x, i) {
            if w > 0 {
                lemma_csi_scan(x, start, i + w);
                lemma_csi_same(x, t, n, start, i + w);
            } else if !(cancels(x[i]) || 0x40 <= x[i] <= 0x7e) {
                lemma_csi_scan(x, start, i + 1);
                lemma_csi_same(x, t, n, start, i + 1);
            }
        }
        lemma_same_control(x, t, n, i);
    }
}

/// The scan comes to no end.
spec fn left_open(scan: Scan) -> bool {
    scan is Pending || scan is Oversized
}

proof fn lemma_shift_same(x: Seq<u8>, t: Seq<u8>, n: int, start: int, i: int)
    requires
        alike(x, t, n),
        0 <= i <= x.len(),
        ends_within(x, shift_scan(x, start, i), n),
    ensures
        shift_scan(t, start, i) == shift_scan(x, start, i) || left_open(shift_scan(t, start, i)),
    decreases x.len() - i,
{
    lemma_shift_scan(x, start, i);
    if i < x.len() {
        let w = char_width_at(x, i);
        if !control_at(x, i) && w == 0 && !cancels(x[i]) && (x[i] <= 0x1f || x[i] == 0x7f) {
            lemma_shift_scan(x, start, i + 1);
            lemma_shift_same(x, t, n, start, i + 1);
        }
        lemma_same_control(x, t, n, i);
    }
}

proof fn lemma_intermediate_same(x: Seq<u8>, t: Seq<u8>, n: int, start: int, i: int)
    requires
        alike(x, t, n),
        0 <= i <= x.len(),
        ends_within(x, intermediate_scan(x, start, i), n),
    ensures
        intermediate_scan(t, start, i) == intermediate_scan(x, start, i),
    decreases x.len() - i,
{
    lemma_intermediate_scan(x, start, i);
    if i < x.len() {
        if !control_at(x, i) && !(cancels(x[i]) || x[i] >= 0x30 && x[i] != 0x7f) {
            lemma_intermediate_scan(x, start, i + 1);
            lemma_intermediate_same(x, t, n, start, i + 1);
        }
        lemma_same_control(x, t, n, i);
    }
}

/// A control that another text follows ends where it ended.
#[verifier::rlimit(80)]
#[verifier::spinoff_prover]
proof fn lemma_scan_same(x: Seq<u8>, t: Seq<u8>, n: int, i: int)
    requires
        alike(x, t, n),
        0 <= i < n,
        control_at(x, i),
        string_kind_at(x, i) is None,
        ends_within(x, scan_at(x, i), n),
    ensures
        scan_at(t, i) == scan_at(x, i) || left_open(scan_at(t, i)),
        control_at(t, i),
        string_kind_at(t, i) is None,
{
    let w = c1_width_at(x, i);
    lemma_csi_scan(x, i, i + w);
    lemma_shift_scan(x, i, i + w);
    if x[i] == 0x1b {
        assert(t[i] == x[i]);
        assert(i + 1 < x.len());
        if i + 2 <= x.len() {
            lemma_csi_scan(x, i, i + 2);
            lemma_shift_scan(x, i, i + 2);
        }
        lemma_intermediate_scan(x, i, i + 1);
        assert(i + 1 < n);
        assert(t[i + 1] == x[i + 1]);
        lemma_same_control(x, t, n, i + 1);
        if !control_at(x, i + 1) {
            if x[i + 1] == 0x5b {
                lemma_csi_same(x, t, n, i, i + 2);
            } else if x[i + 1] == 0x4e || x[i + 1] == 0x4f {
                lemma_shift_same(x, t, n, i, i + 2);
            } else if 0x20 <= x[i + 1] <= 0x2f {
                lemma_intermediate_same(x, t, n, i, i + 1);
            }
        }
    } else {
        lemma_same_control(x, t, n, i);
        let code = c1_code_at(x, i);
        if code == 0x8e || code == 0x8f {
            lemma_shift_same(x, t, n, i, i + w);
        } else if code == 0x9b {
            lemma_csi_same(x, t, n, i, i + w);
        }
    }
}

/// The first control of a chain that stays is all in it.
proof fn lemma_chain_min(x: Seq<u8>, i: int)
    requires
        0 <= i < x.len(),
        control_at(x, i),
        chain_from(x, i) is Keep,
    ensures
        i + c1_width_at(x, i) <= chain_from(x, i)->Keep_0,
{
    let w = c1_width_at(x, i);
    lemma_scan_at(x, i);
    lemma_csi_scan(x, i, i + w);
    lemma_shift_scan(x, i, i + w);
    if let Scan::Restart(at) = scan_at(x, i) {
        lemma_chain_from(x, at);
    }
}

/// A chain that stays stays whatever follows it.
proof fn lemma_chain_same(x: Seq<u8>, t: Seq<u8>, n: int, i: int)
    requires
        alike(x, t, n),
        0 <= i < n < x.len(),
        control_at(x, i),
        chain_from(x, i) == Chain::Keep(n),
    ensures
        chain_from(t, i) == Chain::Keep(n) || chain_from(t, i) == Chain::Keep(t.len() as int),
        control_at(t, i),
    decreases x.len() - i,
{
    lemma_scan_at(x, i);
    match scan_at(x, i) {
        Scan::Restart(at) => {
            lemma_chain_from(x, at);
            lemma_chain_min(x, at);
            lemma_scan_same(x, t, n, i);
            lemma_chain_same(x, t, n, at);
        },
        _ => {
            lemma_scan_same(x, t, n, i);
        },
    }
}

#[verifier::rlimit(80)]
#[verifier::spinoff_prover]
proof fn lemma_kept_control(s: Seq<u8>, from: int, i: int)
    requires
        0 <= from <= i < s.len(),
        seamless_from(s, from, i),
        control_at(s, i),
        chain_from(s, i) is Keep,
        stringless_from(sanitized_from(s, chain_from(s, i)->Keep_0), 0),
    ensures
        stringless_from(sanitized_from(s, i), 0),
{
    lemma_chain_from(s, i);
    let e = chain_from(s, i)->Keep_0;
    let x = s.subrange(i, s.len() as int);
    let u = s.subrange(i, e);
    let rest = sanitized_from(s, e);
    let t = u + rest;
    let n = e - i;
    assert(tail_at(s, i, x));
    assert(tail_at(t, n, rest));
    lemma_local(s, i, x, 0);
    lemma_chain_moved(s, i, x, 0);
    lemma_stringless_moved(t, n, rest, 0);
    assert(t == sanitized_from(s, i));
    assert(stringless_from(t, t.len() as int));
    if e == s.len() {
        assert(t =~= x);
    } else {
        lemma_alike(s, from, i);
        lemma_next_drop(s, from, e);
        assert(alike(x, t, n));
        lemma_chain_same(x, t, n, 0);
    }
}

proof fn lemma_sanitized_stringless(s: Seq<u8>, from: int, i: int)
    requires
        0 <= from <= i <= s.len(),
        seamless_from(s, from, i),
    ensures
        stringless_from(sanitized_from(s, i), 0),
    decreases s.len() - i,
{
    if i < s.len() {
        if control_at(s, i) {
            lemma_chain_from(s, i);
            match chain_from(s, i) {
                Chain::Drop(end) => lemma_sanitized_stringless(s, end, end),
                Chain::Keep(end) => {
                    lemma_sanitized_stringless(s, from, end);
                    lemma_kept_control(s, from, i);
                },
            }
        } else {
            let e = text_unit_end(s, i);
            let u = s.subrange(i, e);
            let rest = sanitized_from(s, e);
            let t = u + rest;
            lemma_sanitized_stringless(s, from, e);
            assert(tail_at(t, e - i, rest));
            lemma_stringless_moved(t, e - i, rest, 0);
            let x = s.subrange(i, s.len() as int);
            assert(tail_at(s, i, x));
            lemma_local(s, i, x, 0);
            lemma_alike(s, from, i);
            lemma_next_drop(s, from, e);
            let w = char_width_at(s, i);
            assert(t[0] == s[i]);
            if w > 0 {
                assert(t[1] == s[i + 1]);
                assert(w >= 3 ==> t[2] == s[i + 2]);
                assert(w >= 4 ==> t[3] == s[i + 3]);
                assert(char_width_at(t, 0) == w);
            } else {
                assert(char_width_at(t, 0) == 0);
            }
            assert(!control_at(t, 0));
        }
    }
}

proof fn lemma_stringless_sanitized(t: Seq<u8>, i: int)
    requires
        0 <= i <= t.len(),
        stringless_from(t, i),
    ensures
        sanitized_from(t, i) == t.subrange(i, t.len() as int),
    decreases t.len() - i,
{
    if i < t.len() {
        let e = if control_at(t, i) {
            lemma_chain_from(t, i);
            chain_from(t, i)->Keep_0
        } else {
            text_unit_end(t, i)
        };
        lemma_stringless_sanitized(t, e);
        assert(t.subrange(i, e) + t.subrange(e, t.len() as int) =~= t.subrange(i, t.len() as int));
    }
}

proof fn lemma_sanitized_subsequence(s: Seq<u8>, i: int)
    requires
        0 <= i <= s.len(),
    ensures
        subsequence(sanitized_from(s, i), s.subrange(i, s.len() as int)),
    decreases s.len() - i,
{
    let all = s.subrange(i, s.len() as int);
    if i < s.len() {
        lemma_chain_from(s, i);
        let e = if control_at(s, i) {
            match chain_from(s, i) {
                Chain::Drop(end) => end,
                Chain::Keep(end) => end,
            }
        } else {
            text_unit_end(s, i)
        };
        let u = s.subrange(i, e);
        let rest = sanitized_from(s, e);
        lemma_sanitized_subsequence(s, e);
        assert(u + s.subrange(e, s.len() as int) =~= all);
        if control_at(s, i) && chain_from(s, i) is Drop {
            lemma_subsequence_empty(u);
            lemma_subsequence_concat(Seq::empty(), u, rest, s.subrange(e, s.len() as int));
            assert(Seq::<u8>::empty() + rest =~= rest);
        } else {
            lemma_subsequence_self(u);
            lemma_subsequence_concat(u, u, rest, s.subrange(e, s.len() as int));
        }
    } else {
        lemma_subsequence_empty(all);
    }
}

/// Sanitizing takes bytes out and changes nothing else.
pub proof fn sanitizing_only_drops(s: Seq<u8>)
    ensures
        subsequence(sanitized(s), s),
{
    lemma_sanitized_subsequence(s, 0);
    assert(s.subrange(0, s.len() as int) =~= s);
}

/// Sanitizing leaves no control string, and sanitizing again changes nothing.
/// The one exception: a character that is broken off before a dropped string can
/// join with what follows the string, and so uncover a byte behind it.
pub proof fn sanitizing_leaves_no_string(s: Seq<u8>)
    requires
        seamless(s),
    ensures
        stringless_from(sanitized(s), 0),
        sanitized(sanitized(s)) == sanitized(s),
{
    lemma_sanitized_stringless(s, 0, 0);
    let t = sanitized(s);
    lemma_stringless_sanitized(t, 0);
    assert(t.subrange(0, t.len() as int) =~= t);
}

proof fn lemma_dropping_shortens(s: Seq<u8>, i: int)
    requires
        0 <= i <= s.len(),
    ensures
        sanitized_from(s, i).len() <= s.len() - i,
        !stringless_from(s, i) ==> sanitized_from(s, i).len() < s.len() - i,
    decreases s.len() - i,
{
    if i < s.len() {
        if control_at(s, i) {
            lemma_chain_from(s, i);
            match chain_from(s, i) {
                Chain::Drop(end) => lemma_dropping_shortens(s, end),
                Chain::Keep(end) => lemma_dropping_shortens(s, end),
            }
        } else {
            lemma_dropping_shortens(s, text_unit_end(s, i));
        }
    }
}

/// Sanitizing drops control strings only: input comes back byte for byte exactly
/// where it holds none.
pub proof fn sanitizing_keeps_input_without_strings(s: Seq<u8>)
    ensures
        sanitized(s) == s <==> stringless_from(s, 0),
{
    lemma_dropping_shortens(s, 0);
    if stringless_from(s, 0) {
        lemma_stringless_sanitized(s, 0);
        assert(s.subrange(0, s.len() as int) =~= s);
    }
}

} // verus!
