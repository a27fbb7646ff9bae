//! Detection hints in text: a hint counts where it stands as whole words,
//! whatever its case. Text becomes a sequence of symbols in which word
//! boundaries are symbols of their own, so that whole-word search is plain
//! search.

use vstd::prelude::*;

use crate::bytes::{ascii_alphanumeric, lower};

verus! {

/// The symbol of a boundary between a word and what is not one.
pub const DETECTION_BOUNDARY_SYMBOL: u16 = 256;

/// Bytes that words are made of.
pub open spec fn word_byte(b: u8) -> bool {
    ascii_alphanumeric(b) || b == 0x5f
}

/// A word begins or ends in front of byte `i`.
pub open spec fn bounded_before(s: Seq<u8>, i: int) -> bool {
    if i == 0 {
        word_byte(s[0])
    } else {
        word_byte(s[i - 1]) != word_byte(s[i])
    }
}

/// The symbols of byte `i`: the boundary in front of it, if there is one, and
/// the byte in lower case.
pub open spec fn unit(s: Seq<u8>, i: int) -> Seq<u16> {
    if bounded_before(s, i) {
        seq![DETECTION_BOUNDARY_SYMBOL, lower(s[i]) as u16]
    } else {
        seq![lower(s[i]) as u16]
    }
}

/// The symbols of `s`, without a boundary at its end.
pub open spec fn open_symbols(s: Seq<u8>) -> Seq<u16>
    decreases s.len(),
{
    if s.len() == 0 {
        Seq::empty()
    } else {
        open_symbols(s.drop_last()) + unit(s, s.len() - 1)
    }
}

/// The boundary at the end of `s`, if there is one.
pub open spec fn closing(s: Seq<u8>) -> Seq<u16> {
    if s.len() > 0 && word_byte(s.last()) {
        seq![DETECTION_BOUNDARY_SYMBOL]
    } else {
        Seq::empty()
    }
}

/// The symbols of `s`.
pub open spec fn symbols(s: Seq<u8>) -> Seq<u16> {
    open_symbols(s) + closing(s)
}

/// The same bytes, whatever their case.
pub open spec fn alike(a: Seq<u8>, b: Seq<u8>) -> bool {
    a.len() == b.len() && forall|k: int| 0 <= k < a.len() ==> lower(#[trigger] a[k]) == lower(b[k])
}

/// The hint stands at `start` as whole words.
pub open spec fn hint_at(s: Seq<u8>, hint: Seq<u8>, start: int) -> bool {
    let end = start + hint.len();
    &&& 0 <= start
    &&& end <= s.len()
    &&& alike(s.subrange(start, end), hint)
    &&& !word_byte(hint[0]) || start == 0 || !word_byte(s[start - 1])
    &&& !word_byte(hint.last()) || end == s.len() || !word_byte(s[end])
}

/// The hint stands in `s` as whole words. An empty hint stands nowhere.
pub open spec fn hint_in(s: Seq<u8>, hint: Seq<u8>) -> bool {
    hint.len() > 0 && exists|start: int| #[trigger] hint_at(s, hint, start)
}

/// `part` stands at offset `k` of `all`.
pub open spec fn stands_at(all: Seq<u16>, part: Seq<u16>, k: int) -> bool {
    0 <= k && k + part.len() <= all.len() && all.subrange(k, k + part.len()) == part
}

/// `part` stands somewhere in `all`.
pub open spec fn stands_in(all: Seq<u16>, part: Seq<u16>) -> bool {
    exists|k: int| #[trigger] stands_at(all, part, k)
}

/// How many symbols stand before those of byte `i`.
pub open spec fn offset(s: Seq<u8>, i: int) -> int {
    open_symbols(s.take(i)).len() as int
}

proof fn lemma_lower_keeps_words(b: u8)
    ensures
        word_byte(lower(b)) == word_byte(b),
        lower(b) < 256,
{
}

/// The symbols of a beginning of `s` stand at its beginning.
proof fn lemma_open_prefix(s: Seq<u8>, i: int)
    requires
        0 <= i <= s.len(),
    ensures
        offset(s, i) <= open_symbols(s).len(),
        open_symbols(s).take(offset(s, i)) == open_symbols(s.take(i)),
        i < s.len() ==> offset(s, i + 1) == offset(s, i) + unit(s, i).len(),
        i < s.len() ==> offset(s, i + 1) <= open_symbols(s).len() && open_symbols(s).subrange(
            offset(s, i),
            offset(s, i + 1),
        ) == unit(s, i),
    decreases s.len() - i,
{
    let all = open_symbols(s);
    if i == s.len() {
        assert(s.take(i) =~= s);
        assert(all.take(all.len() as int) =~= all);
    } else {
        lemma_open_prefix(s, i + 1);
        let longer = s.take(i + 1);
        assert(longer.drop_last() =~= s.take(i));
        assert(unit(longer, i) =~= unit(s, i));
        assert(open_symbols(longer) == open_symbols(s.take(i)) + unit(s, i));
        let n = offset(s, i);
        let m = offset(s, i + 1);
        assert(all.take(n) =~= all.take(m).take(n));
        assert(all.take(m).take(n) =~= open_symbols(s.take(i)));
        assert(all.subrange(n, m) =~= all.take(m).subrange(n, m));
        assert(all.take(m).subrange(n, m) =~= unit(s, i));
    }
}

pub proof fn lemma_prefix_of_symbols(s: Seq<u8>, i: int)
    requires
        0 <= i <= s.len(),
    ensures
        open_symbols(s.take(i)).len() <= symbols(s).len(),
        symbols(s).take(open_symbols(s.take(i)).len() as int) == open_symbols(s.take(i)),
{
    lemma_open_prefix(s, i);
    let n = open_symbols(s.take(i)).len() as int;
    assert(symbols(s).take(n) =~= open_symbols(s).take(n));
}

/// The symbols of `s` at byte `i`.
proof fn lemma_symbols_at(s: Seq<u8>, i: int)
    requires
        0 <= i < s.len(),
    ensures
        0 <= offset(s, i),
        offset(s, i + 1) == offset(s, i) + unit(s, i).len(),
        offset(s, i + 1) <= open_symbols(s).len(),
        symbols(s)[offset(s, i + 1) - 1] == lower(s[i]) as u16,
        bounded_before(s, i) ==> symbols(s)[offset(s, i)] == DETECTION_BOUNDARY_SYMBOL
            && offset(s, i + 1) == offset(s, i) + 2,
        !bounded_before(s, i) ==> offset(s, i + 1) == offset(s, i) + 1,
{
    lemma_open_prefix(s, i);
    let n = offset(s, i);
    let m = offset(s, i + 1);
    let u = unit(s, i);
    assert(open_symbols(s).subrange(n, m)[u.len() - 1] == u[u.len() - 1]);
    assert(open_symbols(s).subrange(n, m)[0] == u[0]);
}

proof fn lemma_offset_ends(s: Seq<u8>)
    ensures
        offset(s, 0) == 0,
        offset(s, s.len() as int) == open_symbols(s).len(),
{
    assert(s.take(0) =~= Seq::<u8>::empty());
    assert(s.take(s.len() as int) =~= s);
}

/// Every symbol that is no boundary belongs to a byte.
proof fn lemma_byte_of(s: Seq<u8>, q: int) -> (i: int)
    requires
        0 <= q < symbols(s).len(),
        symbols(s)[q] != DETECTION_BOUNDARY_SYMBOL,
    ensures
        0 <= i < s.len(),
        q == offset(s, i + 1) - 1,
    decreases s.len(),
{
    lemma_offset_ends(s);
    assert(q < open_symbols(s).len());
    lemma_byte_before(s, q, s.len() as int)
}

proof fn lemma_byte_before(s: Seq<u8>, q: int, n: int) -> (i: int)
    requires
        0 <= n <= s.len(),
        0 <= q < offset(s, n),
        symbols(s)[q] != DETECTION_BOUNDARY_SYMBOL,
    ensures
        0 <= i < n,
        q == offset(s, i + 1) - 1,
    decreases n,
{
    lemma_offset_ends(s);
    lemma_symbols_at(s, n - 1);
    if q == offset(s, n) - 1 {
        n - 1
    } else if q < offset(s, n - 1) {
        lemma_byte_before(s, q, n - 1)
    } else {
        n - 1
    }
}

/// The first bytes of a hint as symbols, and as bytes.
proof fn lemma_prefix_stands(s: Seq<u8>, hint: Seq<u8>, start: int)
    requires
        hint.len() > 0,
        0 <= start,
        start + hint.len() <= s.len(),
        alike(s.subrange(start, start + hint.len()), hint),
        !word_byte(hint[0]) || start == 0 || !word_byte(s[start - 1]),
    ensures
        stands_at(
            symbols(s),
            open_symbols(hint),
            offset(s, start + hint.len()) - open_symbols(hint).len(),
        ),
    decreases hint.len(),
{
    let n = hint.len() as int;
    let end = start + n;
    let part = open_symbols(hint);
    let all = symbols(s);
    lemma_symbols_at(s, end - 1);
    assert(s.subrange(start, end)[n - 1] == s[end - 1]);
    lemma_lower_keeps_words(s[end - 1]);
    lemma_lower_keeps_words(hint[n - 1]);
    if n == 1 {
        assert(hint.drop_last() =~= Seq::<u8>::empty());
        assert(part =~= unit(hint, 0));
        let k = offset(s, end) - part.len();
        if word_byte(hint[0]) {
            assert(bounded_before(s, start));
        }
        assert(all.subrange(k, k + part.len()) =~= part);
    } else {
        let shorter = hint.drop_last();
        assert(s.subrange(start, end - 1) =~= s.subrange(start, end).drop_last());
        assert forall|k: int| 0 <= k < shorter.len() implies lower(
            #[trigger] s.subrange(start, end - 1)[k],
        ) == lower(shorter[k]) by {
            assert(s.subrange(start, end)[k] == s.subrange(start, end - 1)[k]);
        }
        lemma_prefix_stands(s, shorter, start);
        assert(s.subrange(start, end)[n - 2] == s[end - 2]);
        lemma_lower_keeps_words(s[end - 2]);
        lemma_lower_keeps_words(hint[n - 2]);
        assert(bounded_before(s, end - 1) == bounded_before(hint, n - 1));
        let k = offset(s, end - 1) - open_symbols(shorter).len();
        assert(k == offset(s, end) - part.len());
        assert(all.subrange(k, k + part.len()) =~= part) by {
            let u = unit(hint, n - 1);
            assert forall|j: int| 0 <= j < part.len() implies #[trigger] all[k + j] == part[j] by {
                if j < open_symbols(shorter).len() {
                    assert(all.subrange(k, k + open_symbols(shorter).len())[j] == all[k + j]);
                }
            }
        }
    }
}

/// Where the symbols of the first bytes of a hint stand, those bytes stand.
#[verifier::spinoff_prover]
proof fn lemma_prefix_found(s: Seq<u8>, hint: Seq<u8>, k: int) -> (start: int)
    requires
        hint.len() > 0,
        stands_at(symbols(s), open_symbols(hint), k),
    ensures
        0 <= start,
        start + hint.len() <= s.len(),
        alike(s.subrange(start, start + hint.len()), hint),
        !word_byte(hint[0]) || start == 0 || !word_byte(s[start - 1]),
        k + open_symbols(hint).len() == offset(s, start + hint.len()),
    decreases hint.len(),
{
    let n = hint.len() as int;
    let part = open_symbols(hint);
    let all = symbols(s);
    let shorter = hint.drop_last();
    let u = unit(hint, n - 1);
    let m = k + part.len();
    lemma_lower_keeps_words(hint[n - 1]);
    assert(part.last() == lower(hint[n - 1]) as u16);
    assert(all.subrange(k, m)[part.len() - 1] == all[m - 1]);
    let i = lemma_byte_of(s, m - 1);
    lemma_symbols_at(s, i);
    lemma_lower_keeps_words(s[i]);
    if n == 1 {
        assert(shorter =~= Seq::<u8>::empty());
        assert(open_symbols(shorter) =~= Seq::<u16>::empty());
        assert(part == open_symbols(shorter) + u);
        assert(part =~= u);
        if word_byte(hint[0]) {
            assert(all.subrange(k, m)[0] == all[k]);
            assert(all[m - 2] == DETECTION_BOUNDARY_SYMBOL);
            if !bounded_before(s, i) {
                if i > 0 {
                    lemma_symbols_at(s, i - 1);
                    lemma_lower_keeps_words(s[i - 1]);
                } else {
                    lemma_offset_ends(s);
                }
                assert(false);
            }
        }
        assert(s.subrange(i, i + 1)[0] == s[i]);
        i
    } else {
        let first = open_symbols(shorter);
        assert(all.subrange(k, k + first.len()) =~= first) by {
            assert forall|j: int| 0 <= j < first.len() implies #[trigger] all[k + j] == first[j] by {
                assert(all.subrange(k, m)[j] == part[j]);
            }
        }
        let start = lemma_prefix_found(s, shorter, k);
        let next = start + n - 1;
        assert(k + first.len() == offset(s, next));
        // The symbols behind the shorter prefix are those of byte `next`.
        assert(all.subrange(k, m)[first.len() as int] == all[k + first.len()]);
        assert(part[first.len() as int] == u[0]);
        if next == s.len() {
            lemma_offset_ends(s);
            assert(all.len() <= open_symbols(s).len() + 1);
            assert(u.len() == 1);
            assert(all[k + first.len()] == DETECTION_BOUNDARY_SYMBOL);
            assert(false);
        }
        lemma_symbols_at(s, next);
        lemma_lower_keeps_words(s[next]);
        lemma_lower_keeps_words(hint[n - 2]);
        assert(s.subrange(start, next)[n - 2] == s[next - 1]);
        lemma_lower_keeps_words(s[next - 1]);
        if bounded_before(hint, n - 1) {
            assert(u[0] == DETECTION_BOUNDARY_SYMBOL);
            assert(bounded_before(s, next));
            assert(all.subrange(k, m)[first.len() as int + 1] == all[k + first.len() + 1]);
            assert(part[first.len() as int + 1] == u[1]);
        } else {
            assert(!bounded_before(s, next));
        }
        assert(lower(s[next]) == lower(hint[n - 1]));
        let found = s.subrange(start, start + n);
        assert forall|j: int| 0 <= j < found.len() implies lower(#[trigger] found[j]) == lower(
            hint[j],
        ) by {
            if j < n - 1 {
                assert(s.subrange(start, next)[j] == found[j]);
                assert(shorter[j] == hint[j]);
            }
        }
        start
    }
}

/// Whole-word search is search for symbols: a hint stands in a text as whole
/// words, whatever its case, exactly where its symbols stand in the text's.
pub proof fn whole_words_are_symbols(s: Seq<u8>, hint: Seq<u8>)
    requires
        hint.len() > 0,
    ensures
        hint_in(s, hint) == stands_in(symbols(s), symbols(hint)),
{
    let n = hint.len() as int;
    let all = symbols(s);
    let part = symbols(hint);
    let first = open_symbols(hint);
    lemma_lower_keeps_words(hint[n - 1]);
    if hint_in(s, hint) {
        let start = choose|start: int| #[trigger] hint_at(s, hint, start);
        let end = start + n;
        lemma_prefix_stands(s, hint, start);
        let k = offset(s, end) - first.len();
        assert(s.subrange(start, end)[n - 1] == s[end - 1]);
        lemma_lower_keeps_words(s[end - 1]);
        lemma_symbols_at(s, end - 1);
        if word_byte(hint.last()) {
            if end == s.len() {
                lemma_offset_ends(s);
                assert(all[offset(s, end)] == DETECTION_BOUNDARY_SYMBOL);
            } else {
                lemma_symbols_at(s, end);
                assert(bounded_before(s, end));
            }
        }
        assert(all.subrange(k, k + part.len()) =~= part) by {
            assert forall|j: int| 0 <= j < part.len() implies #[trigger] all[k + j] == part[j] by {
                if j < first.len() {
                    assert(all.subrange(k, k + first.len())[j] == all[k + j]);
                }
            }
        }
        assert(stands_at(all, part, k));
    }
    if stands_in(all, part) {
        let k = choose|k: int| #[trigger] stands_at(all, part, k);
        assert(all.subrange(k, k + first.len()) =~= first) by {
            assert forall|j: int| 0 <= j < first.len() implies #[trigger] all[k + j] == first[j] by {
                assert(all.subrange(k, k + part.len())[j] == part[j]);
            }
        }
        let start = lemma_prefix_found(s, hint, k);
        let end = start + n;
        assert(s.subrange(start, end)[n - 1] == s[end - 1]);
        lemma_lower_keeps_words(s[end - 1]);
        if word_byte(hint.last()) && end < s.len() {
            assert(all.subrange(k, k + part.len())[first.len() as int] == all[k + first.len()]);
            lemma_symbols_at(s, end);
            lemma_lower_keeps_words(s[end]);
            assert(bounded_before(s, end));
        }
        assert(hint_at(s, hint, start));
    }
}

} // verus!
