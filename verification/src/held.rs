//! Laws about what a stream holds back at the end of a chunk: words, open
//! controls and cut characters wait for the rest of them.

use vstd::prelude::*;

use crate::escapes::{csi_scan, open_control, scan_at, stateful_from, string_scan, Scan};
use crate::invisible::{
    ascii_text, opens_command, opens_sequence, opens_string, sequence_text, string_text,
};
use crate::logins::lemma_ascii_len;
use crate::metadata::{entry_key, key_known, normalized_freely};
use crate::split::{covering_end, stream_split, token_start};
use crate::text::{lowered, trimmed};
use crate::utf8::{continuation_run_start, cut_char_start};
use crate::window::{lines_end, recent, recent_lines};

verus! {

/// What words are made of: letters, digits, and `_`, `-`, `/`, `.`.
pub open spec fn word_goes_on(b: u8) -> bool {
    0x30 <= b <= 0x39 || 0x41 <= b <= 0x5a || 0x61 <= b <= 0x7a || b == 0x5f || b == 0x2d || b
        == 0x2f || b == 0x2e
}

proof fn lemma_nothing_open(s: Seq<u8>, i: int)
    requires
        ascii_text(s),
        0 <= i <= s.len(),
    ensures
        stateful_from(s, i) is None,
    decreases s.len() - i,
{
    if i < s.len() {
        assert(s[i] < 0x80 && s[i] != 0x1b);
        lemma_nothing_open(s, i + 1);
    }
}

proof fn lemma_nothing_covers(s: Seq<u8>, index: int, end: int)
    requires
        ascii_text(s),
        end <= s.len(),
    ensures
        covering_end(s, index, end) is None,
    decreases end,
{
    if end > 0 {
        assert(s[end - 1] < 0x80 && s[end - 1] != 0x1b);
        lemma_nothing_covers(s, index, end - 1);
    }
}

proof fn lemma_word_run(s: Seq<u8>, from: int, end: int)
    requires
        0 <= from <= end <= s.len(),
        from > 0 ==> !word_goes_on(s[from - 1]),
        forall|k: int| from <= k < end ==> word_goes_on(#[trigger] s[k]),
    ensures
        token_start(s, end) == from,
    decreases end,
{
    if end > from {
        assert(word_goes_on(s[end - 1]));
        lemma_word_run(s, from, end - 1);
    }
}

/// A word at the end of a text waits for the rest of it, unless it is longer
/// than 512 bytes; all before it is ready.
pub proof fn words_are_held_back(before: Seq<u8>, word: Seq<u8>)
    requires
        ascii_text(before),
        before.len() > 0 ==> !word_goes_on(before.last()),
        forall|k: int| 0 <= k < word.len() ==> word_goes_on(#[trigger] word[k]),
    ensures
        word.len() <= 512 ==> stream_split(before + word) == before.len(),
        word.len() > 512 ==> stream_split(before + word) == before.len() + word.len(),
{
    let s = before + word;
    let n = before.len() as int;
    assert(ascii_text(s)) by {
        assert forall|k: int| 0 <= k < s.len() implies #[trigger] s[k] < 0x80 && s[k] != 0x1b by {
            if k < n {
                assert(s[k] == before[k]);
            } else {
                assert(s[k] == word[k - n]);
                assert(word_goes_on(word[k - n]));
            }
        }
    }
    assert forall|k: int| n <= k < s.len() implies word_goes_on(#[trigger] s[k]) by {
        assert(s[k] == word[k - n]);
    }
    if n > 0 {
        assert(s[n - 1] == before.last());
    }
    lemma_nothing_open(s, 0);
    assert(open_control(s) is None);
    if s.len() > 0 {
        assert(s[s.len() - 1] < 0x80);
    }
    assert(cut_char_start(s) is None);
    lemma_word_run(s, n, s.len() as int);
    lemma_nothing_covers(s, n, n);
}

proof fn lemma_first_control(s: Seq<u8>, i: int, n: int)
    requires
        0 <= i <= n < s.len(),
        forall|k: int| 0 <= k < n ==> #[trigger] s[k] < 0x80 && s[k] != 0x1b,
        s[n] == 0x1b,
    ensures
        stateful_from(s, i) == Some(n),
    decreases n - i,
{
    if i < n {
        assert(s[i] < 0x80 && s[i] != 0x1b);
        lemma_first_control(s, i + 1, n);
    }
}

proof fn lemma_open_sequence(s: Seq<u8>, start: int, i: int)
    requires
        0 <= start <= i <= s.len(),
        forall|k: int| i <= k < s.len() ==> 0x20 <= #[trigger] s[k] <= 0x3f,
        s.len() - start <= 1024,
    ensures
        csi_scan(s, start, i) == Scan::Pending,
    decreases s.len() - i,
{
    if i < s.len() {
        assert(0x20 <= s[i] <= 0x3f);
        lemma_open_sequence(s, start, i + 1);
    }
}

proof fn lemma_open_string(s: Seq<u8>, start: int, i: int, bel: bool)
    requires
        0 <= start <= i <= s.len(),
        forall|k: int|
            i <= k < s.len() ==> #[trigger] s[k] < 0x80 && s[k] != 0x1b && s[k] != 0x07 && s[k]
                != 0x18 && s[k] != 0x1a,
        s.len() - start <= 16384,
    ensures
        string_scan(s, start, i, bel) == Scan::Pending,
    decreases s.len() - i,
{
    if i < s.len() {
        assert(s[i] < 0x80);
        lemma_open_string(s, start, i + 1, bel);
    }
}

/// A control sequence without its last byte waits for it, and so does a
/// control string without its end, up to their limits.
pub proof fn open_controls_are_held_back(before: Seq<u8>, o: Seq<u8>, text: Seq<u8>)
    requires
        ascii_text(before),
        o.len() == 2,
        o[0] == 0x1b,
        opens_sequence(o) && sequence_text(text) && text.len() <= 1022 || (opens_command(o)
            || opens_string(o)) && string_text(text) && text.len() <= 16382,
    ensures
        stream_split(before + o + text) == before.len(),
{
    let s = before + o + text;
    let n = before.len() as int;
    assert forall|k: int| 0 <= k < n implies #[trigger] s[k] < 0x80 && s[k] != 0x1b by {
        assert(s[k] == before[k]);
    }
    assert(s[n] == o[0]);
    assert(s[n + 1] == o[1]);
    lemma_first_control(s, 0, n);
    if opens_sequence(o) && sequence_text(text) {
        assert(o[1] == 0x5b);
        assert forall|k: int| n + 2 <= k < s.len() implies 0x20 <= #[trigger] s[k] <= 0x3f by {
            assert(s[k] == text[k - n - 2]);
        }
        lemma_open_sequence(s, n, n + 2);
    } else {
        assert forall|k: int| n + 2 <= k < s.len() implies #[trigger] s[k] < 0x80 && s[k] != 0x1b
            && s[k] != 0x07 && s[k] != 0x18 && s[k] != 0x1a by {
            assert(s[k] == text[k - n - 2]);
        }
        assert(o[1] == 0x5d || o[1] == 0x50 || o[1] == 0x58 || o[1] == 0x5e || o[1] == 0x5f);
        lemma_open_string(s, n, n + 2, true);
        lemma_open_string(s, n, n + 2, false);
    }
    assert(scan_at(s, n) == Scan::Pending);
    assert(open_control(s) == Some(n));
}

/// How many bytes a character has whose first byte is `b`.
pub open spec fn bytes_of_char(b: u8) -> int {
    if 0xc0 <= b <= 0xdf {
        2
    } else if 0xe0 <= b <= 0xef {
        3
    } else if 0xf0 <= b <= 0xf7 {
        4
    } else {
        0
    }
}

/// A character that is cut off waits for its other bytes.
pub proof fn cut_characters_are_held_back(before: Seq<u8>, cut: Seq<u8>)
    requires
        ascii_text(before),
        0 < cut.len() < bytes_of_char(cut[0]),
        forall|k: int| 1 <= k < cut.len() ==> 0x80 <= #[trigger] cut[k] <= 0xbf,
    ensures
        cut_char_start(before + cut) == Some(before.len() as int),
{
    let s = before + cut;
    let n = before.len() as int;
    assert(s[n] == cut[0]);
    assert forall|k: int| n + 1 <= k < s.len() implies 0x80 <= #[trigger] s[k] <= 0xbf by {
        assert(s[k] == cut[k - n]);
    }
    lemma_run(s, n + 1, s.len() as int);
}

proof fn lemma_run(s: Seq<u8>, from: int, end: int)
    requires
        0 < from <= end <= s.len(),
        !(0x80 <= s[from - 1] <= 0xbf),
        forall|k: int| from <= k < end ==> 0x80 <= #[trigger] s[k] <= 0xbf,
    ensures
        continuation_run_start(s, end) == from,
    decreases end,
{
    if end > from {
        assert(0x80 <= s[end - 1] <= 0xbf);
        lemma_run(s, from, end - 1);
    }
}

proof fn lemma_no_feed(s: Seq<char>, n: int, end: int)
    requires
        0 <= n <= end <= s.len(),
        n > 0 ==> s[n - 1] == '\n',
        forall|k: int| n <= k < end ==> #[trigger] s[k] != '\n',
    ensures
        lines_end(s, end) == n,
    decreases end,
{
    if end > n {
        assert(s[end - 1] != '\n');
        lemma_no_feed(s, n, end - 1);
    }
}

/// The recent lines are the complete ones: what stands behind the last line
/// feed is left out.
pub proof fn incomplete_lines_are_left_out(text: Seq<char>, rest: Seq<char>, limit: int)
    requires
        text.len() > 0 ==> text.last() == '\n',
        forall|k: int| 0 <= k < text.len() ==> 0 <= (#[trigger] text[k] as int) < 0x80,
        forall|k: int| 0 <= k < rest.len() ==> #[trigger] rest[k] != '\n',
        text.len() <= limit,
    ensures
        recent_lines(text + rest, limit) == text,
{
    let s = text + rest;
    let n = text.len() as int;
    if n > 0 {
        assert(s[n - 1] == text.last());
    }
    assert forall|k: int| n <= k < s.len() implies #[trigger] s[k] != '\n' by {
        assert(s[k] == rest[k - n]);
    }
    lemma_no_feed(s, n, s.len() as int);
    assert(s.take(n) =~= text);
    lemma_ascii_len(text);
    assert(recent(text, limit) == text);
}

/// Entries of a profile are kept in their order, trimmed, each once: every
/// entry that says something is kept, or one like it that came before.
pub proof fn entries_are_kept_once(entries: Seq<Seq<char>>, any_case: bool)
    ensures
        ({
            let kept = normalized_freely(entries, any_case);
            &&& forall|k: int|
                0 <= k < entries.len() && trimmed(#[trigger] entries[k]).len() > 0 ==> exists|j: int|
                    0 <= j < kept.len() && (#[trigger] kept[j] == trimmed(entries[k]) || any_case
                        && lowered(kept[j]) == lowered(trimmed(entries[k])))
            &&& forall|j: int|
                0 <= j < kept.len() ==> exists|k: int|
                    0 <= k < entries.len() && #[trigger] kept[j] == trimmed(#[trigger] entries[k])
            &&& forall|j: int| 0 <= j < kept.len() ==> (#[trigger] kept[j]).len() > 0
        }),
    decreases entries.len(),
{
    if entries.len() > 0 {
        let before = entries.drop_last();
        let n = entries.len() - 1;
        entries_are_kept_once(before, any_case);
        let was = normalized_freely(before, any_case);
        let kept = normalized_freely(entries, any_case);
        let t = trimmed(entries.last());
        assert(entries[n] == entries.last());
        assert forall|k: int| 0 <= k < entries.len() && trimmed(
            #[trigger] entries[k],
        ).len() > 0 implies exists|j: int|
            0 <= j < kept.len() && (#[trigger] kept[j] == trimmed(entries[k]) || any_case
                && lowered(kept[j]) == lowered(trimmed(entries[k]))) by {
            if k < n {
                assert(before[k] == entries[k]);
                let j = choose|j: int|
                    0 <= j < was.len() && (#[trigger] was[j] == trimmed(before[k]) || any_case
                        && lowered(was[j]) == lowered(trimmed(before[k])));
                assert(kept[j] == was[j]);
            } else if key_known(was, t, any_case) {
                let j = choose|j: int|
                    0 <= j < was.len() && entry_key(#[trigger] was[j], any_case)
                        == entry_key(t, any_case);
                assert(kept[j] == was[j]);
            } else {
                assert(kept[was.len() as int] == t);
            }
        }
        assert forall|j: int| 0 <= j < kept.len() implies exists|k: int|
            0 <= k < entries.len() && #[trigger] kept[j] == trimmed(#[trigger] entries[k]) by {
            if j < was.len() {
                assert(kept[j] == was[j]);
                let k = choose|k: int|
                    0 <= k < before.len() && was[j] == trimmed(#[trigger] before[k]);
                assert(entries[k] == before[k]);
            } else {
                assert(kept[j] == trimmed(entries[n]));
            }
        }
        assert forall|j: int| 0 <= j < kept.len() implies (#[trigger] kept[j]).len() > 0 by {
            if j < was.len() {
                assert(kept[j] == was[j]);
            }
        }
    }
}

} // verus!
