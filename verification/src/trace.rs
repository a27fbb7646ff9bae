//! The lines of a trace of input and output.

use vstd::prelude::*;

use crate::text::{decimal, decimal_text, hex_digit, hex_digit_char};

verus! {

/// A byte as two hexadecimal digits.
pub open spec fn hex_pair(b: u8) -> Seq<char> {
    seq![hex_digit((b / 16) as nat), hex_digit((b % 16) as nat)]
}

/// Bytes as pairs of hexadecimal digits with spaces between them.
pub open spec fn hex_line(s: Seq<u8>) -> Seq<char>
    decreases s.len(),
{
    if s.len() == 0 {
        Seq::empty()
    } else if s.len() == 1 {
        hex_pair(s[0])
    } else {
        hex_line(s.drop_last()) + seq![' '] + hex_pair(s.last())
    }
}

/// Bytes as pairs of hexadecimal digits with spaces between them.
pub fn trace_hex(bytes: &[u8]) -> (r: String)
    ensures
        r@ == hex_line(bytes@),
{
    let mut out = String::new();
    let mut i: usize = 0;
    assert(out@ =~= hex_line(bytes@.take(0)));
    while i < bytes.len()
        invariant
            i <= bytes@.len(),
            out@ == hex_line(bytes@.take(i as int)),
        decreases bytes@.len() - i,
    {
        let ghost before = out@;
        assert(bytes@.take(i + 1).drop_last() =~= bytes@.take(i as int));
        if i > 0 {
            out.push(' ');
        }
        out.push(hex_digit_char(bytes[i] / 16));
        out.push(hex_digit_char(bytes[i] % 16));
        assert(out@ =~= hex_line(bytes@.take(i + 1))) by {
            if i > 0 {
                assert(out@ =~= before + seq![' '] + hex_pair(bytes@[i as int]));
            } else {
                assert(out@ =~= hex_pair(bytes@[0]));
                assert(bytes@.take(1)[0] == bytes@[0]);
            }
        }
        i = i + 1;
    }
    assert(bytes@.take(i as int) =~= bytes@);
    out
}

/// `text` with copies of `c` before it, so that it has at least `width`
/// characters.
pub open spec fn padded(text: Seq<char>, c: char, width: nat) -> Seq<char>
    decreases width - text.len(),
{
    if text.len() >= width {
        text
    } else {
        padded(seq![c] + text, c, width)
    }
}

fn pad(text: String, c: char, width: usize) -> (r: String)
    ensures
        r@ == padded(text@, c, width as nat),
{
    let mut text = text;
    let ghost goal = padded(text@, c, width as nat);
    let mut len: usize = crate::text::chars_of(text.as_str()).len();
    while len < width
        invariant
            len == text@.len(),
            goal == padded(text@, c, width as nat),
        decreases width - len,
    {
        let mut longer = String::new();
        longer.push(c);
        longer.append(text.as_str());
        assert(longer@ =~= seq![c] + text@);
        text = longer;
        len = len + 1;
    }
    text
}

/// A line of the trace: when, in which direction, and the bytes.
pub open spec fn line(seconds: u64, micros: u32, direction: Seq<char>, s: Seq<u8>) -> Seq<char> {
    padded(decimal(seconds as nat), ' ', 4) + "."@ + padded(decimal(micros as nat), '0', 6) + " "@
        + direction + " "@ + hex_line(s)
}

/// A line of the trace: the time since its start, the direction, and the
/// bytes.
pub fn trace_line(seconds: u64, micros: u32, direction: &str, bytes: &[u8]) -> (r: String)
    ensures
        r@ == line(seconds, micros, direction@, bytes@),
{
    let mut out = pad(decimal_text(seconds), ' ', 4);
    out.append(".");
    let fraction = pad(decimal_text(micros as u64), '0', 6);
    out.append(fraction.as_str());
    out.append(" ");
    out.append(direction);
    out.append(" ");
    let hex = trace_hex(bytes);
    out.append(hex.as_str());
    out
}

} // verus!
