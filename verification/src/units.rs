//! Text made of whole units: characters and complete control sequences. Where
//! such a unit stands does not matter; it is read in the same way everywhere.

use vstd::prelude::*;

use crate::controls::{
    c1_code_at, c1_width_at, cancels, control_at, control_end, csi_end, intermediate_end,
    lemma_control_end, opens_c1_string, opens_esc_string, string_end, text_unit_end, tokens_from, tokens_of, visible,
    visible_from, TokenView,
};
use crate::escapes::{stateful_c1, string_kind_at};
use crate::utf8::{
    announced_width, char_covers, char_width_at, continuation, inside_char, lead_width,
};

verus! {

/// One character of visible text: an ASCII byte other than ESC, or a
/// well-formed character that is no C1 control.
pub open spec fn whole_char(u: Seq<u8>) -> bool {
    ||| u.len() == 1 && u[0] < 0x80 && u[0] != 0x1b
    ||| u.len() >= 2 && char_width_at(u, 0) == u.len() && c1_width_at(u, 0) == 0
}

/// How many bytes introduce the CSI sequence `u`: `ESC [`, or the C1 control in
/// one or two bytes.
pub open spec fn csi_width(u: Seq<u8>) -> int {
    if u.len() >= 2 && u[0] == 0x1b && u[1] == 0x5b {
        2
    } else if c1_width_at(u, 0) > 0 && c1_code_at(u, 0) == 0x9b {
        c1_width_at(u, 0)
    } else {
        0
    }
}

/// A byte that a CSI sequence goes on over: a parameter, an intermediate byte,
/// or a control character that does not cancel it.
pub open spec fn csi_body(b: u8) -> bool {
    b < 0x40 && b != 0x1b && !cancels(b) || b == 0x7f
}

/// A complete CSI sequence: one with its final byte, or one that was cancelled.
pub open spec fn whole_csi(u: Seq<u8>) -> bool {
    &&& 0 < csi_width(u) < u.len()
    &&& 0x40 <= u.last() <= 0x7e || cancels(u.last())
    &&& forall|k: int| csi_width(u) <= k < u.len() - 1 ==> csi_body(#[trigger] u[k])
}

/// A C1 control that nothing belongs to but itself.
pub open spec fn whole_c1(u: Seq<u8>) -> bool {
    0 < u.len() == c1_width_at(u, 0) && !stateful_c1(c1_code_at(u, 0))
}

/// A byte that an ESC sequence goes on over: an intermediate byte, or a control
/// character that does not cancel it.
pub open spec fn escape_body(b: u8) -> bool {
    b < 0x30 && b != 0x1b && !cancels(b) || b == 0x7f
}

/// A complete ESC sequence: ESC and one byte, or ESC, intermediate bytes, and a
/// final byte or one that cancels the sequence. The single shifts, which take a
/// character with them, are not among them.
pub open spec fn whole_escape(u: Seq<u8>) -> bool {
    &&& u.len() >= 2
    &&& u[0] == 0x1b
    &&& if u.len() == 2 {
        u[1] < 0x80 && u[1] != 0x1b && !(0x20 <= u[1] <= 0x2f) && u[1] != 0x5b && u[1] != 0x5d
            && !opens_esc_string(u[1]) && u[1] != 0x4e && u[1] != 0x4f
    } else {
        &&& 0x20 <= u[1] <= 0x2f
        &&& 0x30 <= u.last() <= 0x7e || cancels(u.last())
        &&& forall|k: int| 1 <= k < u.len() - 1 ==> escape_body(#[trigger] u[k])
    }
}

/// The C1 controls that begin or end a control string.
pub open spec fn string_c1(code: u8) -> bool {
    opens_c1_string(code) || code == 0x9c || code == 0x9d
}

/// A byte that may stand in a control string by itself: one that begins no
/// character and does not begin or end a string.
pub open spec fn payload_byte(b: u8, bel: bool) -> bool {
    announced_width(b) == 0 && !string_c1(b) && !cancels(b) && !(bel && b == 0x07)
}

/// From `i` up to `end`, `u` holds bytes that do not end a control string: no
/// character is broken off, no C1 control begins another string, and no ESC
/// stands before a backslash.
pub open spec fn payload(u: Seq<u8>, i: int, end: int, bel: bool) -> bool
    decreases end - i,
{
    if i >= end {
        i == end
    } else if !(0 <= i < u.len()) {
        false
    } else if char_width_at(u, i) > 0 {
        !(u[i] == 0xc2 && string_c1(u[i + 1])) && i + char_width_at(u, i) <= end && payload(
            u,
            i + char_width_at(u, i),
            end,
            bel,
        )
    } else {
        payload_byte(u[i], bel) && (u[i] == 0x1b ==> u[i + 1] != 0x5c) && payload(
            u,
            i + 1,
            end,
            bel,
        )
    }
}

/// How many bytes end the control string `u`, whose payload begins at `from`:
/// BEL, CAN, SUB, `ESC \`, or ST as a C1 control in two bytes or in one.
pub open spec fn terminator_len(u: Seq<u8>, from: int, bel: bool) -> int {
    let n = u.len() as int;
    if n >= from + 1 && (bel && u[n - 1] == 0x07 || cancels(u[n - 1])) {
        1
    } else if n >= from + 2 && u[n - 2] == 0x1b && u[n - 1] == 0x5c {
        2
    } else if n >= from + 2 && u[n - 2] == 0xc2 && u[n - 1] == 0x9c {
        2
    } else if n >= from + 1 && u[n - 1] == 0x9c {
        1
    } else {
        0
    }
}

/// A complete control string: OSC, DCS, SOS, PM or APC, introduced by ESC or by
/// a C1 control.
pub open spec fn whole_string(u: Seq<u8>) -> bool {
    match string_kind_at(u, 0) {
        Some(kind) => {
            let len = terminator_len(u, kind.width(), kind.bel());
            len > 0 && payload(u, kind.width(), u.len() - len, kind.bel())
        },
        None => false,
    }
}

pub open spec fn whole_control(u: Seq<u8>) -> bool {
    whole_csi(u) || whole_string(u) || whole_escape(u) || whole_c1(u)
}

pub open spec fn whole(u: Seq<u8>) -> bool {
    whole_char(u) || whole_control(u)
}

/// The end of the control or of the character at the start of `x`.
pub open spec fn unit_len(x: Seq<u8>) -> int {
    if control_at(x, 0) {
        control_end(x, 0)
    } else {
        text_unit_end(x, 0)
    }
}

/// What is behind the first `n` bytes.
pub open spec fn rest_of(x: Seq<u8>, n: int) -> Seq<u8> {
    x.subrange(n, x.len() as int)
}

/// The text is made of whole units.
pub open spec fn sound(x: Seq<u8>) -> bool
    decreases x.len(),
{
    x.len() == 0 || ({
        let n = unit_len(x);
        0 < n <= x.len() && whole(x.subrange(0, n)) && sound(rest_of(x, n))
    })
}

/// The visible part of a text of whole units.
pub open spec fn shown_part(x: Seq<u8>) -> Seq<u8>
    decreases x.len(),
{
    let n = unit_len(x);
    if x.len() == 0 || !(0 < n <= x.len()) {
        Seq::empty()
    } else if control_at(x, 0) {
        shown_part(rest_of(x, n))
    } else {
        x.subrange(0, n) + shown_part(rest_of(x, n))
    }
}

/// `y` has the bytes of `u` at `j`.
pub open spec fn stands_at(y: Seq<u8>, j: int, u: Seq<u8>) -> bool {
    &&& 0 <= j
    &&& j + u.len() <= y.len()
    &&& forall|k: int| 0 <= k < u.len() ==> #[trigger] y[j + k] == u[k]
}

pub proof fn lemma_char_stands(y: Seq<u8>, j: int, u: Seq<u8>, i: int)
    requires
        stands_at(y, j, u),
        0 <= i < u.len(),
        char_width_at(u, i) > 0,
    ensures
        char_width_at(y, j + i) == char_width_at(u, i),
        y[j + i] == u[i],
        y[j + i + 1] == u[i + 1],
        i + char_width_at(u, i) <= u.len(),
{
    assert(y[j + i] == u[i]);
    assert(y[j + (i + 1)] == u[i + 1]);
    let w = lead_width(u[i]);
    if w >= 3 {
        assert(y[j + (i + 2)] == u[i + 2]);
    }
    if w >= 4 {
        assert(y[j + (i + 3)] == u[i + 3]);
    }
}

/// Up to `j`, every byte that could begin a character begins one that is
/// complete there.
pub open spec fn closed_to(y: Seq<u8>, j: int) -> bool {
    forall|p: int| 0 <= p < j ==> p + announced_width(#[trigger] y[p]) <= j
}

/// Behind complete characters no character goes on.
pub proof fn lemma_outside(s: Seq<u8>, i: int)
    requires
        0 <= i <= s.len(),
        closed_to(s, i),
    ensures
        !inside_char(s, i),
{
    if inside_char(s, i) {
        let start = choose|start: int|
            0 <= start < i && i - 3 <= start && #[trigger] char_covers(s, start, i);
        assert(start + announced_width(s[start]) <= i);
        assert(false);
    }
}

proof fn lemma_payload_closed(u: Seq<u8>, i: int, end: int, bel: bool, p: int)
    requires
        payload(u, i, end, bel),
        0 <= i <= p < end <= u.len(),
    ensures
        p + announced_width(u[p]) <= end,
    decreases p - i,
{
    let w = char_width_at(u, i);
    if w > 0 {
        if p >= i + w {
            lemma_payload_closed(u, i + w, end, bel, p);
        } else if p > i {
            assert(continuation(u[p]));
        }
    } else if p > i {
        lemma_payload_closed(u, i + 1, end, bel, p);
    }
}

/// The characters of a control string are complete before its terminator.
pub proof fn lemma_body_closed(u: Seq<u8>)
    requires
        whole_string(u),
    ensures
        ({
            let kind = string_kind_at(u, 0)->Some_0;
            let end = u.len() - terminator_len(u, kind.width(), kind.bel());
            &&& 1 <= kind.width() <= 2
            &&& kind.width() <= end < u.len()
            &&& closed_to(u, end)
        }),
{
    let kind = string_kind_at(u, 0)->Some_0;
    let end = u.len() - terminator_len(u, kind.width(), kind.bel());
    lemma_payload_range(u, kind.width(), end, kind.bel());
    assert forall|p: int| 0 <= p < end implies p + announced_width(#[trigger] u[p]) <= end by {
        if p >= kind.width() {
            lemma_payload_closed(u, kind.width(), end, kind.bel(), p);
        }
    }
}

/// A whole unit leaves no character open.
proof fn lemma_whole_closed(u: Seq<u8>)
    requires
        whole(u),
    ensures
        closed_to(u, u.len() as int),
{
    let n = u.len() as int;
    assert forall|p: int| 0 <= p < n implies p + announced_width(#[trigger] u[p]) <= n by {
        if whole_char(u) {
            if p > 0 {
                assert(continuation(u[p]));
            }
        } else if whole_string(u) {
            lemma_body_closed(u);
        } else if whole_csi(u) {
            if csi_width(u) <= p < n - 1 {
                assert(csi_body(u[p]));
            }
        } else if whole_escape(u) {
            if 1 <= p < n - 1 {
                assert(escape_body(u[p]));
            }
        }
    }
}

pub proof fn lemma_closed_on(y: Seq<u8>, j: int, u: Seq<u8>, n: int)
    requires
        stands_at(y, j, u),
        closed_to(y, j),
        0 <= n <= u.len(),
        closed_to(u, n),
    ensures
        closed_to(y, j + n),
{
    assert forall|p: int| 0 <= p < j + n implies p + announced_width(#[trigger] y[p]) <= j + n by {
        if p >= j {
            assert(y[j + (p - j)] == u[p - j]);
        }
    }
}

/// Sound text leaves no character open.
pub proof fn lemma_sound_closed(x: Seq<u8>)
    requires
        sound(x),
    ensures
        closed_to(x, x.len() as int),
    decreases x.len(),
{
    if x.len() > 0 {
        let n = unit_len(x);
        let u = x.subrange(0, n);
        let rest = rest_of(x, n);
        lemma_whole_closed(u);
        assert(stands_at(x, 0, u));
        lemma_closed_on(x, 0, u, n);
        lemma_sound_closed(rest);
        assert(stands_at(x, n, rest));
        lemma_closed_on(x, n, rest, rest.len() as int);
    }
}

/// Where sound text can be cut, no character is open.
pub proof fn lemma_cut_closed(s: Seq<u8>, k: int)
    requires
        0 <= k <= s.len(),
        sound(s.subrange(0, k)),
    ensures
        closed_to(s, k),
{
    let x = s.subrange(0, k);
    lemma_sound_closed(x);
    assert(stands_at(s, 0, x));
    lemma_closed_on(s, 0, x, k);
}

proof fn lemma_csi_stands(y: Seq<u8>, j: int, u: Seq<u8>, i: int)
    requires
        stands_at(y, j, u),
        whole_csi(u),
        csi_width(u) <= i < u.len(),
    ensures
        csi_end(y, j + i) == j + u.len(),
    decreases u.len() - i,
{
    assert(y[j + i] == u[i]);
    if i < u.len() - 1 {
        assert(csi_body(u[i]));
        lemma_csi_stands(y, j, u, i + 1);
    }
}

proof fn lemma_escape_stands(y: Seq<u8>, j: int, u: Seq<u8>, i: int)
    requires
        stands_at(y, j, u),
        whole_escape(u),
        2 < u.len(),
        1 <= i < u.len(),
    ensures
        intermediate_end(y, j + i) == j + u.len(),
    decreases u.len() - i,
{
    assert(y[j + i] == u[i]);
    if i < u.len() - 1 {
        assert(escape_body(u[i]));
        lemma_escape_stands(y, j, u, i + 1);
    }
}

/// Wherever a control string stands, its payload is read to its end.
pub proof fn lemma_string_stands(y: Seq<u8>, j: int, u: Seq<u8>, i: int)
    requires
        stands_at(y, j, u),
        closed_to(y, j),
        whole_string(u),
        string_kind_at(u, 0)->Some_0.width() <= i,
        ({
            let kind = string_kind_at(u, 0)->Some_0;
            let end = u.len() - terminator_len(u, kind.width(), kind.bel());
            payload(u, i, end, kind.bel())
        }),
    ensures
        string_end(y, j + i, string_kind_at(u, 0)->Some_0.bel()) == Some(j + u.len()),
    decreases u.len() - i,
{
    let n = u.len() as int;
    let kind = string_kind_at(u, 0)->Some_0;
    let bel = kind.bel();
    let end = n - terminator_len(u, kind.width(), bel);
    lemma_body_closed(u);
    if i < end {
        assert(y[j + i] == u[i]);
        if char_width_at(u, i) > 0 {
            let w = char_width_at(u, i);
            lemma_char_stands(y, j, u, i);
            lemma_payload_range(u, i + w, end, bel);
            lemma_string_stands(y, j, u, i + w);
        } else {
            lemma_payload_range(u, i + 1, end, bel);
            assert(y[j + (i + 1)] == u[i + 1]);
            lemma_string_stands(y, j, u, i + 1);
        }
    } else {
        assert(y[j + (n - 1)] == u[n - 1]);
        if n >= 2 {
            assert(y[j + (n - 2)] == u[n - 2]);
        }
        lemma_closed_on(y, j, u, end);
        lemma_outside(y, j + end);
    }
}

proof fn lemma_payload_range(u: Seq<u8>, i: int, end: int, bel: bool)
    requires
        payload(u, i, end, bel),
    ensures
        i <= end,
{
}

/// A whole unit is read in the same way wherever it stands.
pub proof fn lemma_unit_stands(y: Seq<u8>, j: int, u: Seq<u8>)
    requires
        stands_at(y, j, u),
        closed_to(y, j),
        whole(u),
    ensures
        whole_control(u) == control_at(y, j),
        control_at(y, j) ==> control_end(y, j) == j + u.len(),
        !control_at(y, j) ==> text_unit_end(y, j) == j + u.len(),
        u.len() > 0,
        unit_len(u) == u.len(),
        control_at(u, 0) == control_at(y, j),
        closed_to(y, j + u.len()),
{
    lemma_whole_closed(u);
    lemma_closed_on(y, j, u, u.len() as int);
    lemma_unit_stands_once(y, j, u);
    assert(stands_at(u, 0, u));
    lemma_unit_stands_once(u, 0, u);
}

#[verifier::rlimit(80)]
#[verifier::spinoff_prover]
proof fn lemma_unit_stands_once(y: Seq<u8>, j: int, u: Seq<u8>)
    requires
        stands_at(y, j, u),
        closed_to(y, j),
        whole(u),
    ensures
        whole_control(u) == control_at(y, j),
        control_at(y, j) ==> control_end(y, j) == j + u.len(),
        !control_at(y, j) ==> text_unit_end(y, j) == j + u.len(),
        u.len() > 0,
{
    assert(y[j + 0] == u[0]);
    if u.len() >= 2 {
        assert(y[j + 1] == u[1]);
    }
    if whole_char(u) {
        if u.len() >= 2 {
            lemma_char_stands(y, j, u, 0);
        }
    } else {
        if whole_csi(u) {
            lemma_csi_stands(y, j, u, csi_width(u));
        } else if whole_escape(u) {
            if u.len() > 2 {
                lemma_escape_stands(y, j, u, 1);
            }
        } else if whole_string(u) {
            lemma_body_closed(u);
            lemma_string_stands(y, j, u, string_kind_at(u, 0)->Some_0.width());
        }
    }
}

pub proof fn lemma_sound_unit(u: Seq<u8>, rest: Seq<u8>)
    requires
        whole(u),
    ensures
        unit_len(u + rest) == u.len(),
        (u + rest).subrange(0, u.len() as int) == u,
        rest_of(u + rest, u.len() as int) == rest,
        sound(u + rest) == sound(rest),
        control_at(u + rest, 0) == whole_control(u),
        shown_part(u + rest) == (if whole_control(u) {
            shown_part(rest)
        } else {
            u + shown_part(rest)
        }),
{
    assert(stands_at(u + rest, 0, u));
    lemma_unit_stands(u + rest, 0, u);
    assert((u + rest).subrange(0, u.len() as int) =~= u);
    assert(rest_of(u + rest, u.len() as int) =~= rest);
}

/// The first unit of sound text and the rest.
pub proof fn lemma_sound_split(x: Seq<u8>) -> (n: int)
    requires
        sound(x),
        x.len() > 0,
    ensures
        n == unit_len(x),
        0 < n <= x.len(),
        whole(x.subrange(0, n)),
        sound(rest_of(x, n)),
        x == x.subrange(0, n) + rest_of(x, n),
{
    let n = unit_len(x);
    assert(x =~= x.subrange(0, n) + rest_of(x, n));
    n
}

pub proof fn lemma_sound_concat(a: Seq<u8>, b: Seq<u8>)
    requires
        sound(a),
    ensures
        sound(a + b) == sound(b),
        shown_part(a + b) == shown_part(a) + shown_part(b),
    decreases a.len(),
{
    if a.len() == 0 {
        assert(a + b =~= b);
        assert(shown_part(a) + shown_part(b) =~= shown_part(b));
    } else {
        let n = lemma_sound_split(a);
        let u = a.subrange(0, n);
        let rest = rest_of(a, n);
        lemma_sound_concat(rest, b);
        lemma_sound_unit(u, rest + b);
        lemma_sound_unit(u, rest);
        assert(u + (rest + b) =~= a + b);
        assert(u + (shown_part(rest) + shown_part(b)) =~= u + shown_part(rest) + shown_part(b));
    }
}

/// Where sound text stands, its visible part is shown.
pub proof fn lemma_shown_at(y: Seq<u8>, j: int)
    requires
        0 <= j <= y.len(),
        closed_to(y, j),
        sound(rest_of(y, j)),
    ensures
        visible_from(y, j) == shown_part(rest_of(y, j)),
    decreases y.len() - j,
{
    let x = rest_of(y, j);
    if x.len() > 0 {
        let n = lemma_sound_split(x);
        let u = x.subrange(0, n);
        assert(stands_at(y, j, u));
        lemma_unit_stands(y, j, u);
        assert(rest_of(y, j + n) =~= rest_of(x, n));
        lemma_shown_at(y, j + n);
        lemma_sound_unit(u, rest_of(x, n));
        assert(y.subrange(j, j + n) =~= u);
        lemma_control_end(y, j);
    }
}

pub proof fn lemma_visible_sound(x: Seq<u8>)
    requires
        sound(x),
    ensures
        visible(x) == shown_part(x),
{
    assert(rest_of(x, 0) =~= x);
    lemma_shown_at(x, 0);
}

/// Sound text can be cut at `k`.
pub open spec fn cut_at(s: Seq<u8>, k: int) -> bool {
    &&& 0 <= k <= s.len()
    &&& sound(s.subrange(0, k))
    &&& sound(rest_of(s, k))
}

/// Where sound text can be cut, its next unit ends at another such place.
pub proof fn lemma_next_cut(s: Seq<u8>, k: int) -> (e: int)
    requires
        cut_at(s, k),
        k < s.len(),
    ensures
        k < e <= s.len(),
        cut_at(s, e),
        whole(s.subrange(k, e)),
        control_at(s, k) == whole_control(s.subrange(k, e)),
        control_at(s, k) ==> control_end(s, k) == e,
        !control_at(s, k) ==> text_unit_end(s, k) == e,
{
    let x = rest_of(s, k);
    let n = lemma_sound_split(x);
    let u = x.subrange(0, n);
    let e = k + n;
    assert(s.subrange(k, e) =~= u);
    assert(stands_at(s, k, u));
    lemma_cut_closed(s, k);
    lemma_unit_stands(s, k, u);
    assert(s.subrange(0, e) =~= s.subrange(0, k) + u);
    lemma_sound_unit(u, Seq::empty());
    assert(u + Seq::<u8>::empty() =~= u);
    lemma_sound_concat(s.subrange(0, k), u);
    assert(rest_of(s, e) =~= rest_of(x, n));
    e
}

pub proof fn lemma_cut_ends(s: Seq<u8>)
    requires
        sound(s),
    ensures
        cut_at(s, 0),
        cut_at(s, s.len() as int),
{
    assert(s.subrange(0, 0) =~= Seq::<u8>::empty());
    assert(rest_of(s, 0) =~= s);
    assert(s.subrange(0, s.len() as int) =~= s);
    assert(rest_of(s, s.len() as int) =~= Seq::<u8>::empty());
}

/// The unit that byte `k` belongs to.
pub proof fn lemma_unit_at(s: Seq<u8>, k: int) -> (r: (int, int))
    requires
        sound(s),
        0 <= k < s.len(),
    ensures
        0 <= r.0 <= k < r.1 <= s.len(),
        cut_at(s, r.0),
        cut_at(s, r.1),
        whole(s.subrange(r.0, r.1)),
        control_at(s, r.0) == whole_control(s.subrange(r.0, r.1)),
        control_at(s, r.0) ==> control_end(s, r.0) == r.1,
        !control_at(s, r.0) ==> text_unit_end(s, r.0) == r.1,
{
    lemma_cut_ends(s);
    lemma_unit_from(s, 0, k)
}

proof fn lemma_unit_from(s: Seq<u8>, b: int, k: int) -> (r: (int, int))
    requires
        cut_at(s, b),
        b <= k < s.len(),
    ensures
        b <= r.0 <= k < r.1 <= s.len(),
        cut_at(s, r.0),
        cut_at(s, r.1),
        whole(s.subrange(r.0, r.1)),
        control_at(s, r.0) == whole_control(s.subrange(r.0, r.1)),
        control_at(s, r.0) ==> control_end(s, r.0) == r.1,
        !control_at(s, r.0) ==> text_unit_end(s, r.0) == r.1,
    decreases s.len() - b,
{
    let e = lemma_next_cut(s, b);
    if k < e {
        (b, e)
    } else {
        lemma_unit_from(s, e, k)
    }
}

/// What stands between two places where sound text can be cut is sound.
pub proof fn lemma_between(s: Seq<u8>, a: int, b: int)
    requires
        cut_at(s, a),
        cut_at(s, b),
        a <= b,
    ensures
        sound(s.subrange(a, b)),
{
    let x = s.subrange(0, a);
    let y = s.subrange(a, b);
    assert(x + y =~= s.subrange(0, b));
    lemma_sound_concat(x, y);
}

/// A place where a part can be cut is one where the whole can be cut.
pub proof fn lemma_cut_within(s: Seq<u8>, a: int, k: int)
    requires
        cut_at(s, a),
        cut_at(rest_of(s, a), k),
    ensures
        cut_at(s, a + k),
{
    let x = rest_of(s, a);
    assert(s.subrange(0, a + k) =~= s.subrange(0, a) + x.subrange(0, k));
    lemma_sound_concat(s.subrange(0, a), x.subrange(0, k));
    assert(rest_of(s, a + k) =~= rest_of(x, k));
}

/// Every token of sound text is sound.
pub open spec fn sound_tokens(tokens: Seq<TokenView>) -> bool {
    forall|k: int| 0 <= k < tokens.len() ==> sound((#[trigger] tokens[k]).bytes())
}

proof fn lemma_tokens_from_sound(s: Seq<u8>, text: int, i: int)
    requires
        0 <= text <= i,
        cut_at(s, text),
        cut_at(s, i),
    ensures
        sound_tokens(tokens_from(s, text, i)),
    decreases s.len() - i,
{
    lemma_between(s, text, i);
    if i < s.len() {
        let e = lemma_next_cut(s, i);
        if control_at(s, i) {
            lemma_tokens_from_sound(s, e, e);
            lemma_between(s, i, e);
        } else {
            lemma_tokens_from_sound(s, text, e);
        }
    }
}

pub proof fn lemma_tokens_sound(s: Seq<u8>)
    requires
        sound(s),
    ensures
        sound_tokens(tokens_of(s)),
{
    lemma_cut_ends(s);
    lemma_tokens_from_sound(s, 0, 0);
}

} // verus!
