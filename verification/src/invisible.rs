//! Laws about what of a program's output is shown: text is, control strings,
//! control sequences and escapes are not.

use vstd::prelude::*;

use crate::chunks::cleaned;
use crate::controls::{
    control_at, control_end, csi_end, intermediate_end, string_end, string_end_or_all, visible,
    visible_from,
};
use crate::escapes::string_kind_at;
use crate::sanitize::{chain_from, sanitized, sanitized_from, Chain};
use crate::units::{closed_to, lemma_outside};
use crate::utf8::announced_width;

verus! {

/// ASCII text: everything but ESC.
pub open spec fn ascii_text(x: Seq<u8>) -> bool {
    forall|k: int| 0 <= k < x.len() ==> #[trigger] x[k] < 0x80 && x[k] != 0x1b
}

/// What may stand in a control string: ASCII text without BEL, CAN and SUB.
pub open spec fn string_text(x: Seq<u8>) -> bool {
    forall|k: int|
        0 <= k < x.len() ==> #[trigger] x[k] < 0x80 && x[k] != 0x1b && x[k] != 0x07 && x[k] != 0x18
            && x[k] != 0x1a
}

/// What opens an operating system command: ESC and a bracket, or the C1
/// control in one byte or two.
pub open spec fn opens_command(o: Seq<u8>) -> bool {
    o == seq![0x1bu8, 0x5du8] || o == seq![0x9du8] || o == seq![0xc2u8, 0x9du8]
}

/// What opens a device control string, a start of string, a privacy message
/// or an application program command.
pub open spec fn opens_string(o: Seq<u8>) -> bool {
    ||| o == seq![0x1bu8, 0x50u8] || o == seq![0x90u8] || o == seq![0xc2u8, 0x90u8]
    ||| o == seq![0x1bu8, 0x58u8] || o == seq![0x98u8] || o == seq![0xc2u8, 0x98u8]
    ||| o == seq![0x1bu8, 0x5eu8] || o == seq![0x9eu8] || o == seq![0xc2u8, 0x9eu8]
    ||| o == seq![0x1bu8, 0x5fu8] || o == seq![0x9fu8] || o == seq![0xc2u8, 0x9fu8]
}

/// What ends a control string: the string terminator in its three forms, CAN
/// or SUB, and BEL for an operating system command.
pub open spec fn ends_string(c: Seq<u8>, command: bool) -> bool {
    ||| c == seq![0x1bu8, 0x5cu8] || c == seq![0x9cu8] || c == seq![0xc2u8, 0x9cu8]
    ||| c == seq![0x18u8] || c == seq![0x1au8]
    ||| command && c == seq![0x07u8]
}

proof fn lemma_front(s: Seq<u8>, before: Seq<u8>, i: int)
    requires
        ascii_text(before),
        0 <= i <= before.len() <= s.len(),
        forall|k: int| 0 <= k < before.len() ==> #[trigger] s[k] == before[k],
    ensures
        visible_from(s, i) == before.subrange(i, before.len() as int) + visible_from(
            s,
            before.len() as int,
        ),
        sanitized_from(s, i) == before.subrange(i, before.len() as int) + sanitized_from(
            s,
            before.len() as int,
        ),
    decreases before.len() - i,
{
    let n = before.len() as int;
    if i < n {
        lemma_front(s, before, i + 1);
        assert(s[i] == before[i]);
        assert(!control_at(s, i));
        assert(s.subrange(i, i + 1) =~= seq![before[i]]);
        assert(before.subrange(i, n) =~= seq![before[i]] + before.subrange(i + 1, n));
        assert(seq![before[i]] + (before.subrange(i + 1, n) + visible_from(s, n))
            =~= before.subrange(i, n) + visible_from(s, n));
        assert(seq![before[i]] + (before.subrange(i + 1, n) + sanitized_from(s, n))
            =~= before.subrange(i, n) + sanitized_from(s, n));
    } else {
        assert(before.subrange(i, n) + visible_from(s, n) =~= visible_from(s, n));
        assert(before.subrange(i, n) + sanitized_from(s, n) =~= sanitized_from(s, n));
    }
}

/// ASCII text at the end is shown as it is.
pub proof fn lemma_back(s: Seq<u8>, i: int)
    requires
        0 <= i <= s.len(),
        forall|k: int| i <= k < s.len() ==> #[trigger] s[k] < 0x80 && s[k] != 0x1b,
    ensures
        visible_from(s, i) == s.subrange(i, s.len() as int),
        sanitized_from(s, i) == s.subrange(i, s.len() as int),
    decreases s.len() - i,
{
    let n = s.len() as int;
    if i < n {
        lemma_back(s, i + 1);
        assert(!control_at(s, i));
        assert(s.subrange(i, i + 1) + s.subrange(i + 1, n) =~= s.subrange(i, n));
    } else {
        assert(s.subrange(i, n) =~= Seq::<u8>::empty());
    }
}

/// The end of a control string whose text goes from `i` to `j`.
proof fn lemma_string_ends(s: Seq<u8>, i: int, j: int, c: Seq<u8>, command: bool)
    requires
        0 <= i <= j,
        j + c.len() <= s.len(),
        ends_string(c, command),
        forall|k: int|
            i <= k < j ==> #[trigger] s[k] < 0x80 && s[k] != 0x1b && s[k] != 0x07 && s[k] != 0x18
                && s[k] != 0x1a,
        s.subrange(j, j + c.len()) == c,
        closed_to(s, i),
    ensures
        string_end(s, i, command) == Some(j + c.len()),
    decreases j - i,
{
    if i < j {
        assert(s[i] < 0x80);
        assert(closed_to(s, i + 1));
        lemma_string_ends(s, i + 1, j, c, command);
    } else {
        assert(s[j] == c[0]);
        lemma_outside(s, i);
        if c.len() == 2 {
            assert(s[j + 1] == c[1]);
        }
    }
}

proof fn lemma_string_open(s: Seq<u8>, i: int, command: bool)
    requires
        0 <= i <= s.len(),
        forall|k: int|
            i <= k < s.len() ==> #[trigger] s[k] < 0x80 && s[k] != 0x1b && s[k] != 0x07 && s[k]
                != 0x18 && s[k] != 0x1a,
    ensures
        string_end(s, i, command) is None,
    decreases s.len() - i,
{
    if i < s.len() {
        assert(s[i] < 0x80);
        lemma_string_open(s, i + 1, command);
    }
}

proof fn lemma_opener(s: Seq<u8>, n: int, o: Seq<u8>)
    requires
        opens_command(o) || opens_string(o),
        0 <= n,
        n + o.len() <= s.len(),
        s.subrange(n, n + o.len()) == o,
        forall|k: int| 0 <= k < n ==> #[trigger] s[k] < 0x80,
    ensures
        control_at(s, n),
        string_kind_at(s, n) matches Some(kind) && kind.width() == o.len() && kind.bel()
            == opens_command(o),
        control_end(s, n) == string_end_or_all(s, n + o.len(), opens_command(o)),
        chain_from(s, n) == Chain::Drop(string_end_or_all(s, n + o.len(), opens_command(o))),
        closed_to(s, n + o.len()),
{
    assert(s[n] == o[0]);
    if o.len() == 2 {
        assert(s[n + 1] == o[1]);
    }
    assert(opens_command(o) ==> o[o.len() - 1] == 0x5d || o[o.len() - 1] == 0x9d);
    assert(opens_string(o) ==> o[o.len() - 1] != 0x5d && o[o.len() - 1] != 0x9d);
    assert forall|p: int| 0 <= p < n + o.len() implies p + announced_width(
        #[trigger] s[p],
    ) <= n + o.len() by {
        if p < n {
            assert(s[p] < 0x80);
        }
    }
}

/// A control string is not shown, and sanitizing takes it out.
pub proof fn strings_are_not_shown(
    before: Seq<u8>,
    o: Seq<u8>,
    text: Seq<u8>,
    c: Seq<u8>,
    after: Seq<u8>,
)
    requires
        ascii_text(before),
        opens_command(o) || opens_string(o),
        string_text(text),
        ends_string(c, opens_command(o)),
        ascii_text(after),
    ensures
        visible(before + o + text + c + after) == before + after,
        sanitized(before + o + text + c + after) == before + after,
{
    let s = before + o + text + c + after;
    let n = before.len() as int;
    let i = n + o.len();
    let j = i + text.len();
    let e = j + c.len();
    assert forall|k: int| 0 <= k < n implies #[trigger] s[k] == before[k] by {}
    lemma_front(s, before, 0);
    assert(s.subrange(n, i) =~= o);
    lemma_opener(s, n, o);
    assert forall|k: int| i <= k < j implies #[trigger] s[k] < 0x80 && s[k] != 0x1b && s[k] != 0x07
        && s[k] != 0x18 && s[k] != 0x1a by {
        assert(s[k] == text[k - i]);
    }
    assert(s.subrange(j, e) =~= c);
    lemma_string_ends(s, i, j, c, opens_command(o));
    assert forall|k: int| e <= k < s.len() implies #[trigger] s[k] < 0x80 && s[k] != 0x1b by {
        assert(s[k] == after[k - e]);
    }
    lemma_back(s, e);
    assert(s.subrange(e, s.len() as int) =~= after);
    assert(before.subrange(0, n) =~= before);
}

/// Neither is one whose end has not come.
pub proof fn open_strings_are_not_shown(before: Seq<u8>, o: Seq<u8>, text: Seq<u8>)
    requires
        ascii_text(before),
        opens_command(o) || opens_string(o),
        string_text(text),
    ensures
        visible(before + o + text) == before,
        sanitized(before + o + text) == before,
{
    let s = before + o + text;
    let n = before.len() as int;
    let i = n + o.len();
    assert forall|k: int| 0 <= k < n implies #[trigger] s[k] == before[k] by {}
    lemma_front(s, before, 0);
    assert(s.subrange(n, i) =~= o);
    lemma_opener(s, n, o);
    assert forall|k: int| i <= k < s.len() implies #[trigger] s[k] < 0x80 && s[k] != 0x1b && s[k]
        != 0x07 && s[k] != 0x18 && s[k] != 0x1a by {
        assert(s[k] == text[k - i]);
    }
    lemma_string_open(s, i, opens_command(o));
    lemma_back(s, s.len() as int);
    assert(s.subrange(s.len() as int, s.len() as int) =~= Seq::<u8>::empty());
    assert(before.subrange(0, n) + Seq::<u8>::empty() =~= before);
}

/// Output is cleaned as asked for: of all controls, of control strings alone,
/// or not at all.
pub proof fn output_is_cleaned_as_asked(
    before: Seq<u8>,
    o: Seq<u8>,
    text: Seq<u8>,
    c: Seq<u8>,
    after: Seq<u8>,
    sanitize: bool,
)
    requires
        ascii_text(before),
        opens_command(o) || opens_string(o),
        string_text(text),
        ends_string(c, opens_command(o)),
        ascii_text(after),
    ensures
        ({
            let s = before + o + text + c + after;
            &&& cleaned(true, sanitize, s) == before + after
            &&& cleaned(false, true, s) == before + after
            &&& cleaned(false, false, s) == s
        }),
{
    strings_are_not_shown(before, o, text, c, after);
}

/// What opens a control sequence.
pub open spec fn opens_sequence(o: Seq<u8>) -> bool {
    o == seq![0x1bu8, 0x5bu8] || o == seq![0x9bu8] || o == seq![0xc2u8, 0x9bu8]
}

/// The parameters of a control sequence and its intermediate bytes.
pub open spec fn sequence_text(x: Seq<u8>) -> bool {
    forall|k: int| 0 <= k < x.len() ==> 0x20 <= #[trigger] x[k] <= 0x3f
}

pub proof fn lemma_sequence_ends(s: Seq<u8>, i: int, j: int)
    requires
        0 <= i <= j < s.len(),
        forall|k: int| i <= k < j ==> 0x20 <= #[trigger] s[k] <= 0x3f,
        0x40 <= s[j] <= 0x7e,
    ensures
        csi_end(s, i) == j + 1,
    decreases j - i,
{
    if i < j {
        assert(0x20 <= s[i] <= 0x3f);
        lemma_sequence_ends(s, i + 1, j);
    }
}

/// A control sequence, such as one that changes colors or moves the cursor,
/// is not shown.
pub proof fn sequences_are_not_shown(
    before: Seq<u8>,
    o: Seq<u8>,
    text: Seq<u8>,
    last: u8,
    after: Seq<u8>,
)
    requires
        ascii_text(before),
        opens_sequence(o),
        sequence_text(text),
        0x40 <= last <= 0x7e,
        ascii_text(after),
    ensures
        visible(before + o + text + seq![last] + after) == before + after,
{
    let s = before + o + text + seq![last] + after;
    let n = before.len() as int;
    let i = n + o.len();
    let j = i + text.len();
    assert forall|k: int| 0 <= k < n implies #[trigger] s[k] == before[k] by {}
    lemma_front(s, before, 0);
    assert(s[n] == o[0]);
    if o.len() == 2 {
        assert(s[n + 1] == o[1]);
    }
    assert forall|k: int| i <= k < j implies 0x20 <= #[trigger] s[k] <= 0x3f by {
        assert(s[k] == text[k - i]);
    }
    assert(s[j] == last);
    lemma_sequence_ends(s, i, j);
    assert forall|k: int| j + 1 <= k < s.len() implies #[trigger] s[k] < 0x80 && s[k] != 0x1b by {
        assert(s[k] == after[k - j - 1]);
    }
    lemma_back(s, j + 1);
    assert(s.subrange(j + 1, s.len() as int) =~= after);
    assert(before.subrange(0, n) =~= before);
}

proof fn lemma_escape_ends(s: Seq<u8>, i: int, j: int)
    requires
        0 <= i <= j < s.len(),
        forall|k: int| i <= k < j ==> 0x20 <= #[trigger] s[k] <= 0x2f,
        0x30 <= s[j] <= 0x7e,
    ensures
        intermediate_end(s, i) == j + 1,
    decreases j - i,
{
    if i < j {
        assert(0x20 <= s[i] <= 0x2f);
        lemma_escape_ends(s, i + 1, j);
    }
}

/// An escape is not shown: ESC, intermediate bytes, and one more byte, which
/// opens no sequence and no string.
pub proof fn escapes_are_not_shown(before: Seq<u8>, between: Seq<u8>, last: u8, after: Seq<u8>)
    requires
        ascii_text(before),
        forall|k: int| 0 <= k < between.len() ==> 0x20 <= #[trigger] between[k] <= 0x2f,
        0x30 <= last <= 0x7e,
        between.len() == 0 ==> last != 0x50 && last != 0x58 && last != 0x5b && last != 0x5d && last
            != 0x5e && last != 0x5f,
        ascii_text(after),
    ensures
        visible(before + seq![0x1bu8] + between + seq![last] + after) == before + after,
{
    let s = before + seq![0x1bu8] + between + seq![last] + after;
    let n = before.len() as int;
    let j = n + 1 + between.len();
    assert forall|k: int| 0 <= k < n implies #[trigger] s[k] == before[k] by {}
    lemma_front(s, before, 0);
    assert(s[n] == 0x1b);
    assert forall|k: int| n + 1 <= k < j implies 0x20 <= #[trigger] s[k] <= 0x2f by {
        assert(s[k] == between[k - n - 1]);
    }
    assert(s[j] == last);
    if between.len() > 0 {
        assert(0x20 <= s[n + 1] <= 0x2f);
        lemma_escape_ends(s, n + 1, j);
    }
    assert(control_end(s, n) == j + 1);
    assert forall|k: int| j + 1 <= k < s.len() implies #[trigger] s[k] < 0x80 && s[k] != 0x1b by {
        assert(s[k] == after[k - j - 1]);
    }
    lemma_back(s, j + 1);
    assert(s.subrange(j + 1, s.len() as int) =~= after);
    assert(before.subrange(0, n) =~= before);
}

} // verus!
