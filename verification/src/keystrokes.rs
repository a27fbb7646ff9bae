//! Laws about typed keys: what is echoed of them, what is remembered, and when
//! output is taken for their echo.

use vstd::prelude::*;

use crate::bytes::ends_with;
use crate::echo::{
    echo_flush, echo_step, echoed_from, key_end, open_line_start, remembered, untriggered,
    EchoFlush, EchoStep,
};

verus! {

/// Keys that show themselves: printable ASCII and everything beyond ASCII.
pub open spec fn plain_keys(x: Seq<u8>) -> bool {
    forall|k: int| 0 <= k < x.len() ==> #[trigger] x[k] >= 0x20 && x[k] != 0x7f
}

/// What a key that does not show itself shows instead: backspace and delete
/// rub the last character out, the two line breaks end the line, other control
/// keys and key sequences show nothing.
pub open spec fn shown_for(key: Seq<u8>) -> Option<Seq<u8>> {
    if key == seq![0x08u8] || key == seq![0x7fu8] {
        Some(seq![0x08u8, 0x20u8, 0x08u8])
    } else if key == seq![0x0du8] || key == seq![0x0au8] {
        Some(seq![0x0du8, 0x0au8])
    } else if key.len() == 1 && key[0] < 0x20 && key[0] != 0x1b {
        Some(Seq::empty())
    } else if key_sequence(key) {
        Some(Seq::empty())
    } else {
        None
    }
}

/// `ESC [`, parameters, and a final byte.
pub open spec fn key_sequence(key: Seq<u8>) -> bool {
    &&& key.len() >= 3
    &&& key[0] == 0x1b
    &&& key[1] == 0x5b
    &&& 0x40 <= key.last() <= 0x7e
    &&& forall|k: int| 2 <= k < key.len() - 1 ==> !(0x40 <= #[trigger] key[k] <= 0x7e)
}

proof fn lemma_plain_keys(s: Seq<u8>, i: int, j: int)
    requires
        0 <= i <= j <= s.len(),
        forall|k: int| i <= k < j ==> #[trigger] s[k] >= 0x20 && s[k] != 0x7f,
    ensures
        echoed_from(s, i) == (s.subrange(i, j) + echoed_from(s, j).0, echoed_from(s, j).1),
    decreases j - i,
{
    if i < j {
        assert(s[i] >= 0x20 && s[i] != 0x7f);
        lemma_plain_keys(s, i + 1, j);
        assert(seq![s[i]] + (s.subrange(i + 1, j) + echoed_from(s, j).0) =~= s.subrange(i, j)
            + echoed_from(s, j).0);
    } else {
        assert(s.subrange(i, j) + echoed_from(s, j).0 =~= echoed_from(s, j).0);
    }
}

proof fn lemma_key_end(s: Seq<u8>, i: int, end: int)
    requires
        0 <= i <= end < s.len(),
        0x40 <= s[end] <= 0x7e,
        forall|k: int| i <= k < end ==> !(0x40 <= #[trigger] s[k] <= 0x7e),
    ensures
        key_end(s, i) == end,
    decreases end - i,
{
    if i < end {
        assert(!(0x40 <= s[i] <= 0x7e));
        lemma_key_end(s, i + 1, end);
    }
}

/// Local echo shows the keys in their order, each as what it shows.
pub proof fn keys_are_echoed(before: Seq<u8>, key: Seq<u8>, after: Seq<u8>)
    requires
        plain_keys(before),
        shown_for(key) is Some,
        plain_keys(after),
    ensures
        echoed_from(before + key + after, 0) == (
            before + shown_for(key)->Some_0 + after,
            Seq::<u8>::empty(),
        ),
        echoed_from(before, 0) == (before, Seq::<u8>::empty()),
{
    let s = before + key + after;
    let n = before.len() as int;
    let e = n + key.len();
    assert forall|k: int| 0 <= k < n implies #[trigger] s[k] >= 0x20 && s[k] != 0x7f by {
        assert(s[k] == before[k]);
    }
    assert forall|k: int| e <= k < s.len() implies #[trigger] s[k] >= 0x20 && s[k] != 0x7f by {
        assert(s[k] == after[k - e]);
    }
    lemma_plain_keys(s, 0, n);
    lemma_plain_keys(s, e, s.len() as int);
    assert(s.subrange(0, n) =~= before);
    assert(s.subrange(e, s.len() as int) =~= after);
    assert(s[n] == key[0]);
    let shown = shown_for(key)->Some_0;
    if key == seq![0x08u8] || key == seq![0x7fu8] {
        assert(key[0] == 0x08 || key[0] == 0x7f);
        assert(echo_step(s, n) is Backspace);
    } else if key == seq![0x0du8] || key == seq![0x0au8] {
        assert(key[0] == 0x0d || key[0] == 0x0a);
        assert(echo_step(s, n) is Newline);
    } else if key.len() == 1 {
        assert(key[0] != 0x08 && key[0] != 0x0d && key[0] != 0x0a) by {
            assert(key =~= seq![key[0]]);
        }
        assert(echo_step(s, n) == EchoStep::Skip(e));
        assert(shown + after =~= after);
    } else {
        assert(s[n + 1] == key[1]);
        assert(s[e - 1] == key.last());
        assert forall|k: int| n + 2 <= k < e - 1 implies !(0x40 <= #[trigger] s[k] <= 0x7e) by {
            assert(s[k] == key[k - n]);
        }
        lemma_key_end(s, n + 2, e - 1);
        assert(echo_step(s, n) == EchoStep::Skip(e));
        assert(shown + after =~= after);
    }
    assert(echoed_from(s, s.len() as int) == (Seq::<u8>::empty(), Seq::<u8>::empty()));
    assert(after + Seq::<u8>::empty() =~= after);
    assert(echoed_from(s, e).0 == after);
    assert(echoed_from(s, n).0 =~= shown + after);
    assert(before + (shown + after) =~= before + shown + after);
    lemma_plain_keys(before, 0, n);
    assert(before.subrange(0, n) + Seq::<u8>::empty() =~= before);
}

/// A key that submits or gives up the line: a line break, or control and C, D,
/// U, Z or backslash.
pub open spec fn leaving_key(b: u8) -> bool {
    b == 0x0d || b == 0x0a || b == 0x03 || b == 0x04 || b == 0x15 || b == 0x1a || b == 0x1c
}

proof fn lemma_open_line(s: Seq<u8>, from: int, end: int)
    requires
        0 <= from <= end <= s.len(),
        from > 0 ==> leaving_key(s[from - 1]),
        forall|k: int| from <= k < end ==> !leaving_key(#[trigger] s[k]),
    ensures
        open_line_start(s, end) == from,
    decreases end,
{
    if end > from {
        assert(!leaving_key(s[end - 1]));
        lemma_open_line(s, from, end - 1);
    }
}

/// Of what was typed only the current line is remembered: what stands behind
/// the last key that left a line.
pub proof fn the_current_line_is_remembered(before: Seq<u8>, key: u8, line: Seq<u8>)
    requires
        leaving_key(key),
        forall|k: int| 0 <= k < line.len() ==> !leaving_key(#[trigger] line[k]),
        line.len() <= 4096,
    ensures
        remembered(before + seq![key] + line) == line,
        remembered(line) == line,
{
    let s = before + seq![key] + line;
    let from = before.len() + 1;
    assert(s[from - 1] == key);
    assert forall|k: int| from <= k < s.len() implies !leaving_key(#[trigger] s[k]) by {
        assert(s[k] == line[k - from]);
    }
    lemma_open_line(s, from as int, s.len() as int);
    assert(s.subrange(from as int, s.len() as int) =~= line);
    lemma_open_line(line, 0, line.len() as int);
    assert(line.subrange(0, line.len() as int) =~= line);
}

proof fn lemma_triggers_off(held: Seq<u8>, more: Seq<u8>)
    requires
        held.len() > 0,
        held.last() != 0x09 && held.last() != 0x3f,
        forall|k: int| 0 <= k < more.len() ==> #[trigger] more[k] == 0x09 || more[k] == 0x3f,
    ensures
        untriggered(held + more) == held,
    decreases more.len(),
{
    let s = held + more;
    if more.len() > 0 {
        assert(s.last() == more[more.len() - 1]);
        let rest = more.drop_last();
        assert forall|k: int| 0 <= k < rest.len() implies #[trigger] rest[k] == 0x09 || rest[k]
            == 0x3f by {
            assert(rest[k] == more[k]);
        }
        lemma_triggers_off(held, rest);
        assert(s.drop_last() =~= held + rest);
    } else {
        assert(s =~= held);
    }
}

/// While the terminal is quiet, held output that ends what was typed is its
/// echo, also where tabs and question marks were typed behind it. Output that
/// was not typed is not.
pub proof fn echoes_are_told_by_what_was_typed(
    before: Seq<u8>,
    held: Seq<u8>,
    triggers: Seq<u8>,
    other: Seq<u8>,
)
    requires
        held.len() > 0,
        held.last() != 0x09 && held.last() != 0x3f,
        forall|k: int|
            0 <= k < triggers.len() ==> #[trigger] triggers[k] == 0x09 || triggers[k] == 0x3f,
        other.len() > 0,
        other.last() != held.last(),
    ensures
        echo_flush(true, Some(0), Some(0), held, false, Some(before + held + triggers)) == Some(
            EchoFlush::EchoSuffix,
        ),
        echo_flush(true, Some(1), Some(1), held, true, Some(before + held + triggers)) is None,
        echo_flush(true, Some(0), Some(0), other, false, Some(before + held + triggers)) is None,
        echo_flush(true, Some(0), Some(0), other, true, Some(before + held + triggers)) == Some(
            EchoFlush::PromptEcho,
        ),
        echo_flush(false, Some(0), Some(0), held, true, Some(before + held + triggers)) is None,
{
    let typed = before + held;
    assert(typed.last() == held.last());
    lemma_triggers_off(typed, triggers);
    assert(typed.subrange(typed.len() - held.len(), typed.len() as int) =~= held);
    if ends_with(typed, other) {
        let part = typed.subrange(typed.len() - other.len(), typed.len() as int);
        assert(part == other);
        assert(part[other.len() - 1] == typed[typed.len() - 1]);
    }
}

} // verus!
