//! Where prompts and their commands are told apart, text of whole units can be
//! cut.

use vstd::prelude::*;

use crate::arrival::returns_shown;
use crate::bytes::ascii_whitespace;
use crate::controls::{control_at, lemma_control_end};
use crate::prompt_echo::{
    breaks_line, echo_at, echo_len, echo_up_to_cr, echo_up_to_lf, ends_with_marker, leading_break,
    lemma_break_from, prompt_line, shown_at, shown_break, shown_bytes,
};
use crate::prompt_sgr::{
    echo_bounds, echo_from, lemma_echo_bounds, lemma_ink_from, line_plan, plan_from,
};
use crate::units::{
    cut_at, lemma_between, lemma_cut_closed, lemma_cut_ends, lemma_next_cut, lemma_sound_split,
    lemma_sound_unit, lemma_unit_at, lemma_unit_stands, rest_of, sound, stands_at, whole,
    whole_char,
};
use crate::utf8::{continuation, lead_width};

verus! {

/// Sound text cannot be cut within a unit.
pub proof fn lemma_no_cut_inside(s: Seq<u8>, i: int, e: int, k: int)
    requires
        cut_at(s, i),
        i < e <= s.len(),
        whole(s.subrange(i, e)),
        i < k < e,
    ensures
        !cut_at(s, k),
{
    if cut_at(s, k) {
        let x = s.subrange(i, k);
        lemma_between(s, i, k);
        let n = lemma_sound_split(x);
        let u = x.subrange(0, n);
        lemma_cut_closed(s, i);
        assert(stands_at(s, i, u));
        lemma_unit_stands(s, i, u);
        assert(stands_at(s, i, s.subrange(i, e)));
        lemma_unit_stands(s, i, s.subrange(i, e));
    }
}

/// Behind a line break sound text can be cut.
pub proof fn lemma_cut_behind_break(s: Seq<u8>, k: int)
    requires
        cut_at(s, k),
        k < s.len(),
        breaks_line(s[k]),
    ensures
        cut_at(s, k + 1),
{
    let e = lemma_next_cut(s, k);
    assert(s.subrange(k, e)[0] == s[k]);
}

/// A visible byte that does not go on a character stands where sound text can
/// be cut.
pub proof fn lemma_shown_cut(s: Seq<u8>, i: int, j: int)
    requires
        cut_at(s, i),
        0 <= j < shown_at(s, i).len(),
    ensures
        !continuation(shown_at(s, i)[j].0) ==> cut_at(s, shown_at(s, i)[j].1),
        i <= shown_at(s, i)[j].1 < s.len(),
        s[shown_at(s, i)[j].1] == shown_at(s, i)[j].0,
    decreases s.len() - i,
{
    if i < s.len() {
        lemma_control_end(s, i);
        let e = lemma_next_cut(s, i);
        let u = s.subrange(i, e);
        if control_at(s, i) {
            assert(shown_at(s, i) == shown_at(s, e));
            lemma_shown_cut(s, e, j);
        } else {
            let unit = Seq::new((e - i) as nat, |k: int| (s[i + k], i + k));
            let rest = shown_at(s, e);
            assert(shown_at(s, i) == unit + rest);
            if j < e - i {
                assert((unit + rest)[j] == unit[j]);
                assert(u[j] == s[i + j]);
            } else {
                assert((unit + rest)[j] == rest[j - (e - i)]);
                lemma_shown_cut(s, e, j - (e - i));
            }
        }
    }
}

/// No unit of the text is a control.
spec fn all_chars(t: Seq<u8>) -> bool {
    forall|k: int| 0 <= k < t.len() && #[trigger] cut_at(t, k) ==> !control_at(t, k)
}

proof fn lemma_more_chars(u: Seq<u8>, r: Seq<u8>)
    requires
        whole_char(u),
        sound(r),
        all_chars(r),
    ensures
        sound(u + r),
        all_chars(u + r),
{
    let t = u + r;
    let n = u.len() as int;
    lemma_sound_unit(u, r);
    lemma_sound_unit(u, Seq::empty());
    assert(u + Seq::<u8>::empty() =~= u);
    lemma_cut_ends(t);
    assert(stands_at(t, 0, u));
    lemma_unit_stands(t, 0, u);
    assert forall|k: int| 0 <= k < t.len() && #[trigger] cut_at(t, k) implies !control_at(t, k) by {
        if 0 < k < n {
            assert(t.subrange(0, n) =~= u);
            lemma_no_cut_inside(t, 0, n, k);
        } else if k >= n {
            let a = r.subrange(0, k - n);
            assert(t.subrange(0, k) =~= u + a);
            lemma_sound_unit(u, a);
            assert(rest_of(t, k) =~= rest_of(r, k - n));
            assert(cut_at(r, k - n));
            assert(t[k] == r[k - n]);
            if k + 1 < t.len() {
                assert(t[k + 1] == r[k + 1 - n]);
            }
        }
    }
}

/// What is visible of sound text is sound, and has no control in it.
proof fn lemma_shown_text(s: Seq<u8>, i: int)
    requires
        cut_at(s, i),
    ensures
        sound(shown_bytes(shown_at(s, i))),
        all_chars(shown_bytes(shown_at(s, i))),
    decreases s.len() - i,
{
    if i < s.len() {
        lemma_control_end(s, i);
        let e = lemma_next_cut(s, i);
        let u = s.subrange(i, e);
        lemma_shown_text(s, e);
        if control_at(s, i) {
            assert(shown_at(s, i) == shown_at(s, e));
        } else {
            let unit = Seq::new((e - i) as nat, |k: int| (s[i + k], i + k));
            let rest = shown_at(s, e);
            let r = shown_bytes(rest);
            assert(shown_at(s, i) == unit + rest);
            assert(shown_bytes(unit + rest) =~= u + r);
            lemma_more_chars(u, r);
        }
    } else {
        assert(shown_bytes(shown_at(s, i)) =~= Seq::<u8>::empty());
    }
}

/// Behind an ASCII byte and behind a whole character another one begins.
proof fn lemma_begins(t: Seq<u8>, j: int)
    requires
        sound(t),
        all_chars(t),
        0 <= j < t.len(),
        j == 0 || t[j - 1] < 0x80 || (j >= 2 && lead_width(t[j - 2]) == 2) || (j >= 3
            && lead_width(t[j - 3]) == 3),
    ensures
        !continuation(t[j]),
{
    lemma_cut_ends(t);
    if j > 0 {
        let back: int = if t[j - 1] < 0x80 {
            1
        } else if j >= 2 && lead_width(t[j - 2]) == 2 {
            2
        } else {
            3
        };
        let (b, e) = lemma_unit_at(t, j - back);
        let u = t.subrange(b, e);
        assert(u[0] == t[b]);
        assert(u[j - back - b] == t[j - back]);
        assert(whole_char(u));
        assert(e == j);
    }
    let e = lemma_next_cut(t, j);
    assert(t.subrange(j, e)[0] == t[j]);
}

/// Where a command begins behind a prompt, sound text can be cut.
proof fn lemma_command_cut(s: Seq<u8>, i: int, end: int, continues: bool)
    requires
        sound(s),
        0 <= i <= end <= shown_at(s, 0).len(),
        continues ==> i == 0,
    ensures
        ({
            let v = shown_at(s, 0);
            echo_bounds(shown_bytes(v).subrange(i, end), continues) matches Some((_, command))
                ==> cut_at(s, v[i + command].1)
        }),
{
    let v = shown_at(s, 0);
    let t = shown_bytes(v);
    let line = t.subrange(i, end);
    lemma_cut_ends(s);
    lemma_shown_text(s, 0);
    lemma_echo_bounds(line, continues);
    if let Some((prompt, command)) = echo_bounds(line, continues) {
        let j = i + command;
        lemma_ink_from(line, prompt);
        assert(line[command] == t[j]);
        if command > prompt {
            assert(ascii_whitespace(line[command - 1]));
            assert(line[command - 1] == t[j - 1]);
        } else if !continues {
            lemma_echo_found(line, 1);
            let head = line.subrange(0, prompt);
            let n = head.len();
            assert(head[n - 1] == t[j - 1]);
            if n >= 2 {
                assert(head[n - 2] == t[j - 2]);
            }
            if n >= 3 {
                assert(head[n - 3] == t[j - 3]);
            }
            if head.last() >= 0x80 {
                assert(ends_with_marker(head));
                lemma_marker_width(head);
            }
        }
        lemma_begins(t, j);
        lemma_shown_cut(s, 0, j);
    }
}

proof fn lemma_echo_found(line: Seq<u8>, end: int)
    ensures
        echo_from(line, end) matches Some(at) ==> echo_at(line, at),
    decreases line.len() - end,
{
    if 1 <= end < line.len() && !echo_at(line, end) {
        lemma_echo_found(line, end + 1);
    }
}

proof fn lemma_marker_width(s: Seq<u8>)
    requires
        ends_with_marker(s),
    ensures
        s.len() >= 2,
        lead_width(s[s.len() - 2]) == 2 || (s.len() >= 3 && lead_width(s[s.len() - 3]) == 3),
{
    let n = s.len() as int;
    if n >= 3 {
        let last = s.subrange(n - 3, n);
        assert(last[0] == s[n - 3]);
        assert(seq![0xe2u8, 0x97u8, 0x8bu8][0] == 0xe2);
        assert(seq![0xe2u8, 0x97u8, 0x8fu8][0] == 0xe2);
        assert(seq![0xe2u8, 0x9du8, 0xafu8][0] == 0xe2);
        assert(seq![0xe2u8, 0x9du8, 0xaeu8][0] == 0xe2);
        assert(seq![0xe2u8, 0x9du8, 0xb1u8][0] == 0xe2);
        assert(seq![0xe2u8, 0x80u8, 0xbau8][0] == 0xe2);
        assert(seq![0xe2u8, 0x9eu8, 0x9cu8][0] == 0xe2);
        assert(seq![0xe2u8, 0x9eu8, 0xa4u8][0] == 0xe2);
    }
    if n >= 2 {
        let last = s.subrange(n - 2, n);
        assert(last[0] == s[n - 2]);
        assert(seq![0xc2u8, 0xbbu8][0] == 0xc2);
        assert(seq![0xceu8, 0xbbu8][0] == 0xce);
    }
}

/// Resets stand only where sound text can be cut.
pub open spec fn at_cuts(s: Seq<u8>, places: Seq<int>) -> bool {
    forall|k: int| #[trigger] places.contains(k) ==> cut_at(s, k)
}

pub proof fn lemma_plan_cuts(s: Seq<u8>, goes_on: bool, i: int)
    requires
        sound(s),
    ensures
        at_cuts(s, plan_from(s, shown_at(s, 0), goes_on, i).resets),
    decreases shown_at(s, 0).len() - i,
{
    let v = shown_at(s, 0);
    let end = shown_break(v, i);
    if 0 <= i <= end && i <= v.len() {
        lemma_break_from(shown_bytes(v), i);
        lemma_command_cut(s, i, end, i == 0 && goes_on);
        let here = line_plan(s, v, goes_on, i, end).resets;
        assert(at_cuts(s, here));
        if end < v.len() {
            lemma_plan_cuts(s, goes_on, end + 1);
            let rest = plan_from(s, v, goes_on, end + 1).resets;
            assert forall|k: int| #[trigger] (here + rest).contains(k) implies cut_at(s, k) by {
                let n = choose|n: int| 0 <= n < (here + rest).len() && (here + rest)[n] == k;
                if n < here.len() {
                    assert(here[n] == k);
                    assert(here.contains(k));
                } else {
                    assert(rest[n - here.len()] == k);
                    assert(rest.contains(k));
                }
            }
        }
    }
}

proof fn lemma_cr_cut(s: Seq<u8>, before: Seq<u8>, i: int)
    requires
        returns_shown(s),
        0 <= i <= s.len(),
    ensures
        echo_up_to_cr(s, before, i) matches Some(n) ==> cut_at(s, n),
    decreases s.len() - i,
{
    if i < s.len() {
        lemma_cr_cut(s, before, i + 1);
        if s[i] == 0x0d {
            lemma_cut_behind_break(s, i);
            if i + 1 < s.len() && s[i + 1] == 0x0a {
                lemma_cut_behind_break(s, i + 1);
            }
        }
    }
}

proof fn lemma_lf_cut(s: Seq<u8>, goes_on: bool, i: int)
    requires
        sound(s),
    ensures
        echo_up_to_lf(s, shown_at(s, 0), goes_on, i) matches Some(n) ==> cut_at(s, n),
    decreases shown_at(s, 0).len() - i,
{
    let v = shown_at(s, 0);
    let end = shown_break(v, i);
    if 0 <= i <= v.len() && i <= end && end < v.len() {
        lemma_cut_ends(s);
        lemma_break_from(shown_bytes(v), i);
        assert(shown_bytes(v)[end] == v[end].0);
        lemma_shown_cut(s, 0, end);
        lemma_cut_behind_break(s, v[end].1);
        if v[end].1 + 1 < s.len() && s[v[end].1 + 1] == 0x0a {
            lemma_cut_behind_break(s, v[end].1 + 1);
        }
        lemma_lf_cut(s, goes_on, end + 1);
    }
}

/// Where the echo of a command ends, sound text can be cut.
pub proof fn lemma_echo_cut(s: Seq<u8>, before: Seq<u8>)
    requires
        sound(s),
        returns_shown(s),
    ensures
        echo_len(s, before) matches Some(n) ==> cut_at(s, n),
{
    lemma_cr_cut(s, before, 0);
    lemma_lf_cut(s, prompt_line(before), 0);
    lemma_cut_ends(s);
    if leading_break(s, before) is Some {
        lemma_cut_behind_break(s, 0);
        if s[0] == 0x0d {
            lemma_cut_behind_break(s, 1);
        }
    }
}

} // verus!
