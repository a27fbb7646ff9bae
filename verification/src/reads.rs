//! Output is cleaned in the same way wherever the reads cut it.

use vstd::prelude::*;

use crate::arrival::{
    kind_of, last_cut, lemma_brief_next, lemma_char_cut_off, lemma_closed_not_cut,
    lemma_closed_so_far, lemma_filter_passes, lemma_inside_whole, lemma_last_cut,
    lemma_payload_inside, lemma_so_far, lemma_string_facts, lemma_well_formed_cut, next_cut,
    open_place, payload_end, so_far, tracks, well_formed, within_limits,
};
use crate::chunks::{carried, cleaned, prepared, Prepared};
use crate::controls::c1_byte;
use crate::escapes::{
    csi_scan, intermediate_scan, last_c1_string, open_c1_string, settled_len, string_kind_at, Scan,
    MAX_INCOMPLETE_ESCAPE_BYTES,
};
use crate::prompt_cuts::lemma_no_cut_inside;
use crate::sanitize::{chain_from, sanitized_from, Chain};
use crate::stream_model::incoming;
use crate::string_filter::{filtered, OversizedStringControlMode};
use crate::units::{
    closed_to, csi_body, csi_width, cut_at, escape_body, lemma_body_closed, lemma_char_stands,
    lemma_cut_closed,
    lemma_cut_ends, lemma_cut_within, lemma_next_cut, lemma_sound_concat, lemma_sound_split,
    lemma_sound_unit, lemma_string_stands, lemma_unit_at, lemma_unit_stands, lemma_visible_sound,
    rest_of, sound, stands_at, unit_len, whole, whole_c1, whole_char, whole_control, whole_csi,
    whole_escape, whole_string,
};
use crate::utf8::{
    announced_width, char_covers, char_width_at, continuation, inside_char, lead_width,
    lemma_cut_char_in_range,
};

verus! {

/// A text of whole units without its control strings.
pub open spec fn stringless_part(x: Seq<u8>) -> Seq<u8>
    decreases x.len(),
{
    let n = unit_len(x);
    if x.len() == 0 || !(0 < n <= x.len()) {
        Seq::empty()
    } else if whole_string(x.subrange(0, n)) {
        stringless_part(rest_of(x, n))
    } else {
        x.subrange(0, n) + stringless_part(rest_of(x, n))
    }
}

proof fn lemma_stringless_concat(a: Seq<u8>, b: Seq<u8>)
    requires
        sound(a),
    ensures
        stringless_part(a + b) == stringless_part(a) + stringless_part(b),
    decreases a.len(),
{
    if a.len() == 0 {
        assert(a + b =~= b);
        assert(stringless_part(a) + stringless_part(b) =~= stringless_part(b));
    } else {
        let n = lemma_sound_split(a);
        let u = a.subrange(0, n);
        let rest = rest_of(a, n);
        lemma_stringless_concat(rest, b);
        lemma_sound_unit(u, rest + b);
        lemma_sound_unit(u, rest);
        assert(u + (rest + b) =~= a + b);
        assert(u + (stringless_part(rest) + stringless_part(b)) =~= u + stringless_part(rest)
            + stringless_part(b));
    }
}

proof fn lemma_csi_complete(y: Seq<u8>, j: int, u: Seq<u8>, i: int)
    requires
        stands_at(y, j, u),
        whole_csi(u),
        csi_width(u) <= i < u.len(),
    ensures
        csi_scan(y, j, j + i) == Scan::Complete(j + u.len()),
    decreases u.len() - i,
{
    assert(y[j + i] == u[i]);
    if i < u.len() - 1 {
        assert(csi_body(u[i]));
        lemma_csi_complete(y, j, u, i + 1);
    }
}

proof fn lemma_escape_complete(y: Seq<u8>, j: int, u: Seq<u8>, i: int)
    requires
        stands_at(y, j, u),
        whole_escape(u),
        2 < u.len(),
        1 <= i < u.len(),
    ensures
        intermediate_scan(y, j, j + i) == Scan::Complete(j + u.len()),
    decreases u.len() - i,
{
    assert(y[j + i] == u[i]);
    if i < u.len() - 1 {
        assert(escape_body(u[i]));
        lemma_escape_complete(y, j, u, i + 1);
    }
}

proof fn lemma_unit_chain(y: Seq<u8>, j: int, u: Seq<u8>)
    requires
        stands_at(y, j, u),
        closed_to(y, j),
        whole_control(u),
    ensures
        chain_from(y, j) == (if whole_string(u) {
            Chain::Drop(j + u.len())
        } else {
            Chain::Keep(j + u.len())
        }),
{
    lemma_unit_stands(y, j, u);
    assert(y[j + 0] == u[0]);
    if u.len() >= 2 {
        assert(y[j + 1] == u[1]);
    }
    if whole_csi(u) {
        lemma_csi_complete(y, j, u, csi_width(u));
    } else if whole_escape(u) {
        if u.len() > 2 {
            lemma_escape_complete(y, j, u, 1);
        }
    } else if whole_string(u) {
        lemma_body_closed(u);
        lemma_string_stands(y, j, u, string_kind_at(u, 0)->Some_0.width());
        assert(string_kind_at(y, j) == string_kind_at(u, 0));
    }
}

proof fn lemma_sanitized_at(y: Seq<u8>, j: int)
    requires
        0 <= j <= y.len(),
        closed_to(y, j),
        sound(rest_of(y, j)),
    ensures
        sanitized_from(y, j) == stringless_part(rest_of(y, j)),
    decreases y.len() - j,
{
    let x = rest_of(y, j);
    if x.len() > 0 {
        let n = lemma_sound_split(x);
        let u = x.subrange(0, n);
        assert(stands_at(y, j, u));
        lemma_unit_stands(y, j, u);
        assert(rest_of(y, j + n) =~= rest_of(x, n));
        lemma_sanitized_at(y, j + n);
        assert(y.subrange(j, j + n) =~= u);
        if whole_control(u) {
            lemma_unit_chain(y, j, u);
        } else {
            assert(!whole_string(u));
        }
    }
}

/// Sound text is cleaned part by part.
proof fn lemma_cleaned_concat(strip: bool, sanitize: bool, a: Seq<u8>, b: Seq<u8>)
    requires
        sound(a),
        sound(b),
    ensures
        cleaned(strip, sanitize, a + b) == cleaned(strip, sanitize, a) + cleaned(
            strip,
            sanitize,
            b,
        ),
{
    lemma_sound_concat(a, b);
    lemma_visible_sound(a);
    lemma_visible_sound(b);
    lemma_visible_sound(a + b);
    assert(rest_of(a, 0) =~= a);
    assert(rest_of(b, 0) =~= b);
    assert(rest_of(a + b, 0) =~= a + b);
    lemma_sanitized_at(a, 0);
    lemma_sanitized_at(b, 0);
    lemma_sanitized_at(a + b, 0);
    lemma_stringless_concat(a, b);
}

proof fn lemma_inside_so_far(y: Seq<u8>, m: int, p: int)
    requires
        0 <= p < m <= y.len(),
        inside_char(y, p),
    ensures
        inside_char(so_far(y, m), p),
{
    let s = so_far(y, m);
    let start = choose|start: int|
        0 <= start < p && p - 3 <= start && #[trigger] char_covers(y, start, p);
    assert(s[start] == y[start]);
    assert(s[start + 1] == y[start + 1]);
    assert(forall|k: int| 0 <= k < m ==> #[trigger] s[k] == y[k]);
    assert(char_covers(s, start, p)) by {
        let w = lead_width(y[start]);
        if start + w <= m {
            assert(start + 2 < m ==> s[start + 2] == y[start + 2]);
            assert(start + 3 < m ==> s[start + 3] == y[start + 3]);
        } else {
            assert forall|k: int| start + 2 <= k <= p implies continuation(
                #[trigger] s[k],
            ) by {
                assert(s[k] == y[k]);
            }
        }
    }
}

/// A C1 control string that is no part of a character is a unit of sound text.
#[verifier::rlimit(80)]
#[verifier::spinoff_prover]
proof fn lemma_c1_string_unit(y: Seq<u8>, m: int, p: int)
    requires
        sound(y),
        0 <= p < m <= y.len(),
        string_kind_at(so_far(y, m), p) matches Some(kind) && kind.is_c1() && !(kind.width() == 1
            && inside_char(so_far(y, m), p)),
    ensures
        cut_at(y, p),
        whole_string(y.subrange(p, next_cut(y, p))),
        string_kind_at(so_far(y, m), p) == string_kind_at(y, p),
{
    let s = so_far(y, m);
    let (b, e) = lemma_unit_at(y, p);
    let u = y.subrange(b, e);
    lemma_cut_closed(y, b);
    assert(s[p] == y[p]);
    if p + 1 < m {
        assert(s[p + 1] == y[p + 1]);
    }
    assert(u[p - b] == y[p]);
    assert(u[0] == y[b]);
    if inside_char(y, p) {
        lemma_inside_so_far(y, m, p);
    }
    if p > b {
        assert(u[1] == y[b + 1]);
        if u[0] == 0xc2 && c1_byte(u[1]) {
            assert(char_width_at(y, b) == 2);
            if p == b + 1 {
                lemma_inside_whole(y, b, p);
            }
        }
        if whole_char(u) {
            assert(stands_at(y, b, u));
            lemma_char_stands(y, b, u, 0);
            lemma_inside_whole(y, b, p);
        } else if whole_string(u) {
            lemma_string_facts(y, b, e);
            let end = payload_end(y, b, e);
            let from = b + kind_of(y, b).width();
            if from <= p < end {
                lemma_payload_inside(y, b, e, from, p, kind_of(y, b).bel());
            } else if p >= end && y[end] == 0xc2 {
                assert(char_width_at(y, end) == 2);
                if p > end {
                    lemma_inside_whole(y, end, p);
                }
            }
        } else if whole_csi(u) {
            if csi_width(u) <= p - b < u.len() - 1 {
                assert(csi_body(u[p - b]));
            }
        } else if whole_escape(u) {
            if p - b < u.len() - 1 {
                assert(escape_body(u[p - b]));
            }
        }
    } else {
        if e - b >= 2 {
            assert(u[1] == y[b + 1]);
        }
        assert(!whole_char(u));
        assert(!whole_csi(u));
        assert(!whole_c1(u));
        assert(!whole_escape(u));
    }
}

proof fn lemma_last_c1(s: Seq<u8>, end: int)
    requires
        0 <= end <= s.len(),
    ensures
        last_c1_string(s, end) matches Some(p) ==> 0 <= p < end && (string_kind_at(s, p) matches
            Some(kind) && kind.is_c1() && !(kind.width() == 1 && inside_char(s, p))),
    decreases end,
{
    if end > 0 {
        lemma_last_c1(s, end - 1);
    }
}

/// A C1 control string that is found open is the unit that is cut off.
#[verifier::rlimit(80)]
#[verifier::spinoff_prover]
proof fn lemma_open_c1_so_far(y: Seq<u8>, m: int)
    requires
        well_formed(y),
        0 <= m <= y.len(),
    ensures
        open_c1_string(so_far(y, m)) matches Some(p) ==> p == last_cut(y, m, 0),
{
    let s = so_far(y, m);
    let b = last_cut(y, m, 0);
    lemma_so_far(y, m);
    lemma_last_c1(s, m);
    if let Some(p) = open_c1_string(s) {
        lemma_c1_string_unit(y, m, p);
        let e = lemma_next_cut(y, p);
        let u = y.subrange(p, e);
        lemma_cut_closed(y, p);
        if e <= m {
            assert(stands_at(s, p, u));
            assert forall|q: int| 0 <= q < p implies q + announced_width(#[trigger] s[q]) <= p by {
                assert(s[q] == y[q]);
            }
            lemma_body_closed(u);
            lemma_string_facts(y, p, e);
            lemma_string_stands(s, p, u, kind_of(y, p).width());
        } else if p < b {
            lemma_no_cut_inside(y, p, e, b);
        } else if p > b {
            let f = lemma_next_cut(y, b);
            lemma_no_cut_inside(y, b, f, p);
        }
    }
}

/// Of well-formed text that has come in part, all whole units are filtered, and
/// the rest is carried on.
#[verifier::rlimit(80)]
#[verifier::spinoff_prover]
proof fn lemma_settled_so_far(y: Seq<u8>, m: int)
    requires
        well_formed(y),
        0 <= m <= y.len(),
    ensures
        settled_len(so_far(y, m)) == last_cut(y, m, 0),
        m - last_cut(y, m, 0) <= MAX_INCOMPLETE_ESCAPE_BYTES,
{
    let s = so_far(y, m);
    let b = last_cut(y, m, 0);
    lemma_so_far(y, m);
    lemma_open_c1_so_far(y, m);
    lemma_cut_ends(y);
    assert(rest_of(y, 0) =~= y);
    lemma_last_cut(y, m, 0);
    lemma_cut_closed(y, b);
    lemma_closed_so_far(y, m, b);
    lemma_closed_not_cut(s, b);
    lemma_cut_char_in_range(s);
    if b < m {
        let e = lemma_brief_next(y, b);
        if open_place(y, m, b) is None {
            lemma_char_cut_off(y, m, b);
        }
        assert(y.subrange(b, e).len() == e - b);
        lemma_unit_limit(y.subrange(b, e));
    }
}

proof fn lemma_unit_limit(u: Seq<u8>)
    requires
        whole(u),
        within_limits(u),
    ensures
        u.len() <= MAX_INCOMPLETE_ESCAPE_BYTES,
{
}

/// All that was read.
pub open spec fn read(inputs: Seq<Seq<u8>>) -> Seq<u8>
    decreases inputs.len(),
{
    if inputs.len() == 0 {
        Seq::empty()
    } else {
        read(inputs.drop_last()) + inputs.last()
    }
}

/// The chunk that one more read gives.
#[verifier::opaque]
pub open spec fn next_read(
    strip: bool,
    sanitize: bool,
    carry: Seq<u8>,
    mode: OversizedStringControlMode,
    input: Seq<u8>,
) -> Prepared {
    prepared(carry, mode, strip, sanitize, input)
}

/// The chunks that the reads give, one after another, and the state behind
/// them.
pub open spec fn prepared_all(strip: bool, sanitize: bool, inputs: Seq<Seq<u8>>) -> Prepared
    decreases inputs.len(),
{
    if inputs.len() == 0 {
        Prepared {
            chunk: Seq::empty(),
            carry: Seq::empty(),
            mode: OversizedStringControlMode::Normal,
        }
    } else {
        let before = prepared_all(strip, sanitize, inputs.drop_last());
        let next = next_read(strip, sanitize, before.carry, before.mode, inputs.last());
        Prepared { chunk: before.chunk + next.chunk, ..next }
    }
}

/// Of the well-formed text `x`, `got` bytes were read: the whole units in the
/// first `p` of them are cleaned, the others wait.
spec fn filtering(
    strip: bool,
    sanitize: bool,
    state: Prepared,
    x: Seq<u8>,
    got: int,
    p: int,
) -> bool {
    &&& 0 <= p <= got <= x.len()
    &&& cut_at(x, p)
    &&& got == x.len() ==> p == got
    &&& state.chunk == cleaned(strip, sanitize, x.subrange(0, p))
    &&& state.carry == x.subrange(p, got)
    &&& tracks(state.mode, rest_of(x, p), got - p)
}

/// What a read does: of the well-formed text `r`, `had` bytes were waiting.
#[verifier::rlimit(60)]
#[verifier::spinoff_prover]
proof fn lemma_read_step(
    strip: bool,
    sanitize: bool,
    carry: Seq<u8>,
    mode: OversizedStringControlMode,
    r: Seq<u8>,
    had: int,
    input: Seq<u8>,
) -> (b: int)
    requires
        well_formed(r),
        r.len() <= usize::MAX,
        0 <= had,
        had + input.len() <= r.len(),
        carry + input == so_far(r, had + input.len()),
        tracks(mode, r, had),
    ensures
        0 <= b <= had + input.len(),
        cut_at(r, b),
        had + input.len() == r.len() ==> b == r.len(),
        ({
            let next = next_read(strip, sanitize, carry, mode, input);
            &&& next.chunk == cleaned(strip, sanitize, r.subrange(0, b))
            &&& next.carry == r.subrange(b, had + input.len())
            &&& tracks(next.mode, rest_of(r, b), had + input.len() - b)
        }),
{
    let m = had + input.len();
    let s = so_far(r, m);
    let b = last_cut(r, m, 0);
    lemma_filter_passes(mode, r, had, m);
    lemma_so_far(r, m);
    lemma_settled_so_far(r, m);
    assert(s.subrange(0, b) =~= r.subrange(0, b));
    assert(carried(s) =~= r.subrange(b, m));
    assert(incoming(mode, input) == (Some(input), mode));
    let next = next_read(strip, sanitize, carry, mode, input);
    assert(next.chunk == cleaned(strip, sanitize, s.subrange(0, b)) && next.carry == carried(s)
        && next.mode == filtered(mode, s).1) by {
        reveal(next_read);
    }
    if m == r.len() && b < m {
        lemma_next_cut(r, b);
    }
    b
}

#[verifier::rlimit(60)]
#[verifier::spinoff_prover]
proof fn lemma_next_read(
    strip: bool,
    sanitize: bool,
    state: Prepared,
    x: Seq<u8>,
    got: int,
    p: int,
    next: Prepared,
    more: int,
    b: int,
)
    requires
        filtering(strip, sanitize, state, x, got, p),
        0 <= more,
        got + more <= x.len(),
        0 <= b <= got - p + more,
        cut_at(rest_of(x, p), b),
        got + more == x.len() ==> b == x.len() - p,
        next.chunk == cleaned(strip, sanitize, rest_of(x, p).subrange(0, b)),
        next.carry == rest_of(x, p).subrange(b, got - p + more),
        tracks(next.mode, rest_of(rest_of(x, p), b), got - p + more - b),
    ensures
        filtering(
            strip,
            sanitize,
            Prepared { chunk: state.chunk + next.chunk, ..next },
            x,
            got + more,
            p + b,
        ),
{
    let r = rest_of(x, p);
    lemma_cut_within(x, p, b);
    lemma_cleaned_concat(strip, sanitize, x.subrange(0, p), r.subrange(0, b));
    assert(x.subrange(0, p) + r.subrange(0, b) =~= x.subrange(0, p + b));
    assert(rest_of(x, p + b) =~= rest_of(r, b));
    assert(r.subrange(b, got - p + more) =~= x.subrange(p + b, got + more));
}

#[verifier::rlimit(60)]
#[verifier::spinoff_prover]
proof fn lemma_all_reads(strip: bool, sanitize: bool, inputs: Seq<Seq<u8>>, x: Seq<u8>) -> (p: int)
    requires
        well_formed(x),
        x.len() <= usize::MAX,
        read(inputs).len() <= x.len(),
        read(inputs) == x.subrange(0, read(inputs).len() as int),
    ensures
        filtering(
            strip,
            sanitize,
            prepared_all(strip, sanitize, inputs),
            x,
            read(inputs).len() as int,
            p,
        ),
    decreases inputs.len(),
{
    if inputs.len() == 0 {
        let none = Seq::<u8>::empty();
        lemma_cut_ends(x);
        assert(x.subrange(0, 0) =~= none);
        assert(cleaned(strip, sanitize, none) =~= none);
        0
    } else {
        let before = inputs.drop_last();
        let input = inputs.last();
        let got = read(before).len() as int;
        assert(read(before) =~= read(inputs).subrange(0, got));
        assert(read(before) =~= x.subrange(0, got));
        assert(input =~= read(inputs).subrange(got, got + input.len()));
        assert(input =~= x.subrange(got, got + input.len()));
        let p = lemma_all_reads(strip, sanitize, before, x);
        let state = prepared_all(strip, sanitize, before);
        let next = next_read(strip, sanitize, state.carry, state.mode, input);
        let r = rest_of(x, p);
        lemma_well_formed_cut(x, p);
        assert(state.carry + input =~= so_far(r, got - p + input.len()));
        let b = lemma_read_step(strip, sanitize, state.carry, state.mode, r, got - p, input);
        lemma_next_read(strip, sanitize, state, x, got, p, next, input.len() as int, b);
        p + b
    }
}

/// Wherever the reads cut well-formed output, within a character or a control
/// or between them, its chunks are together the output as it is cleaned in one
/// piece, and nothing is left to wait.
pub proof fn reads_may_cut_anywhere(strip: bool, sanitize: bool, inputs: Seq<Seq<u8>>)
    requires
        well_formed(read(inputs)),
        read(inputs).len() <= usize::MAX,
    ensures
        prepared_all(strip, sanitize, inputs).chunk == cleaned(strip, sanitize, read(inputs)),
        prepared_all(strip, sanitize, inputs).carry.len() == 0,
{
    let x = read(inputs);
    assert(x.subrange(0, x.len() as int) =~= x);
    lemma_all_reads(strip, sanitize, inputs, x);
}

} // verus!
