//! Untrusted text made safe for a terminal.

use vstd::prelude::*;
use vstd::string::*;

use crate::text::{
    chars_of, control_char, hex_digit, hex_digit_char, hex_text, hexadecimal, is_control_char,
};

verus! {

/// Characters that change the direction of text.
pub open spec fn bidirectional_control(c: char) -> bool {
    let n = c as int;
    n == 0x061c || n == 0x200e || n == 0x200f || 0x202a <= n <= 0x202e || 0x2066 <= n <= 0x2069
}

pub open spec fn line_separator(c: char) -> bool {
    (c as int) == 0x2028 || (c as int) == 0x2029
}

/// How `c` is shown.
pub open spec fn escaped_char(c: char) -> Seq<char> {
    let n = (c as int) as nat;
    if c == '\n' {
        seq!['\\', 'n']
    } else if c == '\r' {
        seq!['\\', 'r']
    } else if c == '\t' {
        seq!['\\', 't']
    } else if bidirectional_control(c) || line_separator(c) {
        seq!['\\', 'u', '{'] + hexadecimal(n) + seq!['}']
    } else if control_char(c) {
        seq!['\\', 'x', hex_digit(n / 16), hex_digit(n % 16)]
    } else {
        seq![c]
    }
}

/// `s` with control characters, line separators and direction controls
/// written out.
pub open spec fn escaped(s: Seq<char>) -> Seq<char>
    decreases s.len(),
{
    if s.len() == 0 {
        Seq::empty()
    } else {
        escaped(s.drop_last()) + escaped_char(s.last())
    }
}

/// A character that needs no escaping.
pub open spec fn harmless(c: char) -> bool {
    !control_char(c) && !bidirectional_control(c) && !line_separator(c)
}

proof fn lemma_hexadecimal_harmless(n: nat)
    ensures
        forall|k: int| 0 <= k < hexadecimal(n).len() ==> harmless(#[trigger] hexadecimal(n)[k]),
    decreases n,
{
    assert forall|d: nat| d < 16 implies harmless(#[trigger] hex_digit(d)) by {}
    if n >= 16 {
        lemma_hexadecimal_harmless(n / 16);
        let head = hexadecimal(n / 16);
        assert(hexadecimal(n) == head.push(hex_digit(n % 16)));
    } else {
        assert(hexadecimal(n) =~= seq![hex_digit(n)]);
    }
}

/// Escaped text holds no control character, no line separator and no
/// direction control.
pub proof fn escaped_text_is_harmless(s: Seq<char>)
    ensures
        forall|k: int| 0 <= k < escaped(s).len() ==> harmless(#[trigger] escaped(s)[k]),
    decreases s.len(),
{
    if s.len() > 0 {
        escaped_text_is_harmless(s.drop_last());
        let c = s.last();
        lemma_hexadecimal_harmless((c as int) as nat);
        assert forall|k: int| 0 <= k < escaped_char(c).len() implies harmless(
            #[trigger] escaped_char(c)[k],
        ) by {
            let n = (c as int) as nat;
            assert(harmless(hex_digit(n / 16)) || !control_char(c));
            assert(harmless(hex_digit(n % 16)) || !control_char(c));
        }
        assert forall|k: int| 0 <= k < escaped(s).len() implies harmless(
            #[trigger] escaped(s)[k],
        ) by {
            let head = escaped(s.drop_last());
            if k < head.len() {
                assert(escaped(s)[k] == head[k]);
            } else {
                assert(escaped(s)[k] == escaped_char(c)[k - head.len()]);
            }
        }
    }
}

/// Text without such characters comes back as it is.
pub proof fn harmless_text_is_not_changed(s: Seq<char>)
    requires
        forall|k: int| 0 <= k < s.len() ==> harmless(#[trigger] s[k]),
    ensures
        escaped(s) == s,
    decreases s.len(),
{
    if s.len() > 0 {
        assert forall|k: int| 0 <= k < s.drop_last().len() implies harmless(
            #[trigger] s.drop_last()[k],
        ) by {
            assert(harmless(s[k]));
        }
        harmless_text_is_not_changed(s.drop_last());
        let c = s[s.len() - 1];
        assert(harmless(c));
        assert(escaped_char(c) =~= seq![c]);
        assert(escaped(s) =~= s);
    } else {
        assert(escaped(s) =~= s);
    }
}

/// Escaping twice is escaping once.
pub proof fn escaping_is_idempotent(s: Seq<char>)
    ensures
        escaped(escaped(s)) == escaped(s),
{
    escaped_text_is_harmless(s);
    harmless_text_is_not_changed(escaped(s));
}

fn push_escaped(out: &mut String, c: char)
    ensures
        final(out)@ == old(out)@ + escaped_char(c),
{
    let ghost before = out@;
    let n = c as u32;
    if c == '\n' {
        out.push('\\');
        out.push('n');
    } else if c == '\r' {
        out.push('\\');
        out.push('r');
    } else if c == '\t' {
        out.push('\\');
        out.push('t');
    } else if n == 0x061c || n == 0x200e || n == 0x200f || (0x202a <= n && n <= 0x202e) || (0x2066
        <= n && n <= 0x2069) || n == 0x2028 || n == 0x2029 {
        out.push('\\');
        out.push('u');
        out.push('{');
        let hex = hex_text(n);
        out.append(hex.as_str());
        out.push('}');
    } else if is_control_char(c) {
        out.push('\\');
        out.push('x');
        out.push(hex_digit_char((n / 16) as u8));
        out.push(hex_digit_char((n % 16) as u8));
    } else {
        out.push(c);
    }
    assert(out@ =~= before + escaped_char(c));
}

/// Converts untrusted metadata into printable terminal text.
pub fn escape_untrusted(input: &str) -> (r: String)
    ensures
        r@ == escaped(input@),
{
    let chars = chars_of(input);
    let mut out = String::new();
    let mut i: usize = 0;
    while i < chars.len()
        invariant
            i <= chars@.len(),
            out@ == escaped(chars@.take(i as int)),
        decreases chars@.len() - i,
    {
        assert(chars@.take(i + 1).drop_last() =~= chars@.take(i as int));
        push_escaped(&mut out, chars[i]);
        i = i + 1;
    }
    assert(chars@.take(i as int) =~= chars@);
    out
}

} // verus!
