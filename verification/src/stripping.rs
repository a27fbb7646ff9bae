//! What stripping leaves: text without controls, all of it taken from the
//! input.

use vstd::prelude::*;

use crate::bytes::{
    lemma_subsequence_concat, lemma_subsequence_empty, lemma_subsequence_self, subsequence,
};
use crate::controls::{
    c1_byte, control_at, control_end, lemma_control_end, text_unit_end, visible, visible_from,
};
use crate::utf8::{char_covers, char_width_at, continuation, inside_char};

verus! {

/// From `i` on, the text holds no control.
pub open spec fn free_from(t: Seq<u8>, i: int) -> bool
    decreases t.len() - i,
{
    !(0 <= i < t.len()) || (!control_at(t, i) && free_from(t, text_unit_end(t, i)))
}

/// Text with another in front reads as it did before.
proof fn lemma_free_shift(u: Seq<u8>, t: Seq<u8>, i: int)
    requires
        0 <= i,
        free_from(t, i),
    ensures
        free_from(u + t, u.len() + i),
    decreases t.len() - i,
{
    let y = u + t;
    let n = u.len() as int;
    if i < t.len() {
        assert forall|k: int| 0 <= k < t.len() implies #[trigger] y[n + k] == t[k] by {}
        assert(y[n + i] == t[i]);
        assert(i + 1 < t.len() ==> y[n + (i + 1)] == t[i + 1]);
        assert(i + 2 < t.len() ==> y[n + (i + 2)] == t[i + 2]);
        assert(i + 3 < t.len() ==> y[n + (i + 3)] == t[i + 3]);
        assert(char_width_at(y, n + i) == char_width_at(t, i));
        lemma_free_shift(u, t, text_unit_end(t, i));
    }
}

/// Behind a byte that could go on a character the text goes on without a
/// control.
proof fn lemma_free_next(t: Seq<u8>, i: int)
    requires
        0 <= i < t.len(),
        free_from(t, i),
        continuation(t[i]),
    ensures
        free_from(t, i + 1),
{
}

proof fn lemma_free_unit(s: Seq<u8>, i: int, t: Seq<u8>)
    requires
        0 <= i < s.len(),
        !control_at(s, i),
        free_from(t, 0),
        t.len() > 0 ==> !c1_byte(t[0]),
    ensures
        free_from(s.subrange(i, text_unit_end(s, i)) + t, 0),
{
    let e = text_unit_end(s, i);
    let u = s.subrange(i, e);
    let y = u + t;
    assert(y[0] == s[i]);
    let w = char_width_at(s, i);
    if w > 0 {
        assert(y[1] == s[i + 1]);
        assert(w >= 3 ==> y[2] == s[i + 2]);
        assert(w >= 4 ==> y[3] == s[i + 3]);
        assert(char_width_at(y, 0) == w);
        lemma_free_shift(u, t, 0);
    } else {
        let v = char_width_at(y, 0);
        assert(t.len() > 0 ==> y[1] == t[0]);
        assert(t.len() > 1 ==> y[2] == t[1]);
        assert(t.len() > 2 ==> y[3] == t[2]);
        if v > 0 {
            lemma_free_next(t, 0);
            if v >= 3 {
                lemma_free_next(t, 1);
            }
            if v >= 4 {
                lemma_free_next(t, 2);
            }
            lemma_free_shift(u, t, v - 1);
        } else {
            lemma_free_shift(u, t, 0);
        }
    }
}

proof fn lemma_visible_free(s: Seq<u8>, i: int)
    requires
        0 <= i <= s.len(),
    ensures
        free_from(visible_from(s, i), 0),
        visible_from(s, i).len() > 0 ==> !c1_byte(visible_from(s, i)[0]),
        subsequence(visible_from(s, i), s.subrange(i, s.len() as int)),
    decreases s.len() - i,
{
    let all = s.subrange(i, s.len() as int);
    if i < s.len() {
        lemma_control_end(s, i);
        let e = if control_at(s, i) {
            control_end(s, i)
        } else {
            text_unit_end(s, i)
        };
        let u = s.subrange(i, e);
        let t = visible_from(s, e);
        lemma_visible_free(s, e);
        assert(u + s.subrange(e, s.len() as int) =~= all);
        if control_at(s, i) {
            lemma_subsequence_empty(u);
            lemma_subsequence_concat(Seq::empty(), u, t, s.subrange(e, s.len() as int));
            assert(Seq::<u8>::empty() + t =~= t);
        } else {
            lemma_free_unit(s, i, t);
            lemma_subsequence_self(u);
            lemma_subsequence_concat(u, u, t, s.subrange(e, s.len() as int));
            assert((u + t)[0] == s[i]);
        }
    } else {
        lemma_subsequence_empty(all);
    }
}

/// Text without controls is all visible.
proof fn lemma_free_visible(t: Seq<u8>, i: int)
    requires
        0 <= i <= t.len(),
        free_from(t, i),
    ensures
        visible_from(t, i) == t.subrange(i, t.len() as int),
        forall|k: int|
            i <= k < t.len() ==> #[trigger] t[k] != 0x1b && (c1_byte(t[k]) ==> inside_char(t, k)),
    decreases t.len() - i,
{
    if i < t.len() {
        let e = text_unit_end(t, i);
        lemma_free_visible(t, e);
        assert(t.subrange(i, e) + t.subrange(e, t.len() as int) =~= t.subrange(i, t.len() as int));
        assert forall|k: int| i <= k < t.len() implies #[trigger] t[k] != 0x1b && (c1_byte(t[k])
            ==> inside_char(t, k)) by {
            if i < k < e {
                assert(char_covers(t, i, k));
            }
        }
    }
}

/// Stripping takes controls out and nothing else: what is left stands in the
/// input in the same order, holds no ESC, and holds the byte of a C1 control
/// only within a character. Stripping again changes nothing.
pub proof fn stripping_leaves_plain_text(s: Seq<u8>)
    ensures
        subsequence(visible(s), s),
        forall|k: int|
            0 <= k < visible(s).len() ==> #[trigger] visible(s)[k] != 0x1b && (c1_byte(
                visible(s)[k],
            ) ==> inside_char(visible(s), k)),
        visible(visible(s)) == visible(s),
{
    lemma_visible_free(s, 0);
    assert(s.subrange(0, s.len() as int) =~= s);
    let t = visible(s);
    lemma_free_visible(t, 0);
    assert(t.subrange(0, t.len() as int) =~= t);
}

/// Text without controls is not changed by stripping.
pub proof fn stripping_keeps_plain_text(s: Seq<u8>)
    requires
        free_from(s, 0),
    ensures
        visible(s) == s,
{
    lemma_free_visible(s, 0);
    assert(s.subrange(0, s.len() as int) =~= s);
}

} // verus!
