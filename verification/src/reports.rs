//! Laws about what is reported: text from outside with its controls written
//! out, and the time and the matches of each rule.

use vstd::prelude::*;

use crate::benchmark::{
    entry_from, lemma_entry_from, lemma_entry_missing, recorded, rules_apart, EntryView,
};
use crate::config::RuleView;
use crate::reporter::ReporterView;
use crate::style_text::hex_digit;
use crate::terminal_text::{escaped, escaped_char};
use crate::text::hexadecimal;

verus! {

proof fn lemma_escaped_concat(a: Seq<char>, b: Seq<char>)
    ensures
        escaped(a + b) == escaped(a) + escaped(b),
    decreases b.len(),
{
    if b.len() == 0 {
        assert(a + b =~= a);
        assert(escaped(a) + escaped(b) =~= escaped(a));
    } else {
        lemma_escaped_concat(a, b.drop_last());
        assert((a + b).drop_last() =~= a + b.drop_last());
        assert((a + b).last() == b.last());
        assert(escaped(a) + escaped(b) =~= (escaped(a) + escaped(b.drop_last())) + escaped_char(
            b.last(),
        ));
    }
}

/// How a character that a terminal would act on is written out.
pub open spec fn written_out(c: char) -> Option<Seq<char>> {
    let n = c as int;
    if n == 0x0a {
        Some(seq!['\\', 'n'])
    } else if n == 0x0d {
        Some(seq!['\\', 'r'])
    } else if n == 0x09 {
        Some(seq!['\\', 't'])
    } else if n < 0x20 || 0x7f <= n <= 0x9f {
        Some(seq!['\\', 'x', hex_digit(n / 16), hex_digit(n % 16)])
    } else if 0x200e <= n <= 0x200f || 0x2028 <= n <= 0x202e || 0x2066 <= n <= 0x2069 {
        Some(seq!['\\', 'u', '{', '2', '0', hex_digit(n / 16 % 16), hex_digit(n % 16), '}'])
    } else if n == 0x061c {
        Some(seq!['\\', 'u', '{', '6', '1', 'c', '}'])
    } else {
        None
    }
}

proof fn lemma_four_digits(n: nat)
    requires
        0x2000 <= n < 0x2100,
    ensures
        hexadecimal(n) == seq!['2', '0', hex_digit((n / 16 % 16) as int), hex_digit((n % 16) as int)],
{
    reveal_with_fuel(hexadecimal, 5);
    assert(n / 16 / 16 == 32);
    assert(hexadecimal(n) =~= seq![
        '2',
        '0',
        hex_digit((n / 16 % 16) as int),
        hex_digit((n % 16) as int),
    ]);
}

/// Every character stays or is written out, in its place.
pub proof fn controls_are_written_out(before: Seq<char>, c: char, after: Seq<char>)
    ensures
        escaped(before + seq![c] + after) == escaped(before) + (match written_out(c) {
            Some(text) => text,
            None => seq![c],
        }) + escaped(after),
{
    let one = seq![c];
    lemma_escaped_concat(before + one, after);
    lemma_escaped_concat(before, one);
    assert(one.drop_last() =~= Seq::<char>::empty());
    assert(one.last() == c);
    reveal_with_fuel(escaped, 2);
    assert(escaped(one.drop_last()) =~= Seq::<char>::empty());
    assert(escaped(one) =~= escaped_char(c));
    let n = (c as int) as nat;
    if 0x2000 <= n < 0x2100 {
        lemma_four_digits(n);
    }
    if n == 0x061c {
        reveal_with_fuel(hexadecimal, 4);
        assert(hexadecimal(n) =~= seq!['6', '1', 'c']);
    }
    let shown = match written_out(c) {
        Some(text) => text,
        None => seq![c],
    };
    assert(escaped_char(c) =~= shown);
}

/// A record adds to the time, the matches and the failures of its rule, and
/// leaves the other rules as they are.
pub proof fn records_add_up(
    entries: Seq<EntryView>,
    rule: RuleView,
    nanos: u128,
    matches: usize,
    error: Option<Seq<char>>,
    k: int,
)
    requires
        rules_apart(entries),
        0 <= k < entries.len(),
        entries[k].line.duration + nanos <= u128::MAX,
        entries[k].line.match_count + matches <= usize::MAX,
        entries[k].line.count < usize::MAX,
    ensures
        ({
            let next = recorded(entries, rule, nanos, matches, error);
            &&& entries[k].rule != rule ==> next[k] == entries[k]
            &&& entries[k].rule == rule ==> next.len() == entries.len() && next[k].rule == rule
                && next[k].line.duration == entries[k].line.duration + nanos
                && next[k].line.match_count == entries[k].line.match_count + matches
                && next[k].line.count == entries[k].line.count + (if error is Some {
                1int
            } else {
                0
            }) && (error is Some ==> next[k].line.last == error) && (error is None
                ==> next[k].line.last == entries[k].line.last)
        }),
{
    lemma_entry_from(entries, rule, 0);
    match entry_from(entries, rule, 0) {
        Some(i) => {
            if entries[k].rule == rule && i != k {
                if i < k {
                    assert(entries[i].rule != entries[k].rule);
                } else {
                    assert(entries[k].rule != entries[i].rule);
                }
            }
        },
        None => lemma_entry_missing(entries, rule, 0, k),
    }
}

/// Profiles are told once, and the generic profile alone not before another
/// one, while one may still be detected.
pub proof fn profiles_are_told_once(r: ReporterView, a: Seq<char>, b: Seq<char>)
    requires
        r.show,
        r.last is None,
        b != seq!['g', 'e', 'n', 'e', 'r', 'i', 'c'],
    ensures
        ({
            let generic = seq![seq!['g', 'e', 'n', 'e', 'r', 'i', 'c']];
            &&& r.tells(seq![a, b])
            &&& !r.told(seq![a, b]).tells(seq![a, b])
            &&& r.told(seq![a, b]).tells(generic)
            &&& r.tells(generic) <==> !r.detects
            &&& !(ReporterView { show: false, ..r }).tells(seq![a, b])
        }),
{
    reveal_strlit("generic");
    assert("generic"@ =~= seq!['g', 'e', 'n', 'e', 'r', 'i', 'c']);
    let generic = seq![seq!['g', 'e', 'n', 'e', 'r', 'i', 'c']];
    assert(generic[0] == "generic"@);
    assert(seq![a, b].len() == 2 && generic.len() == 1);
}

} // verus!
