//! The recent part of a growing text.

use vstd::prelude::*;
use vstd::utf8::*;

use crate::metadata::byte_len;
use crate::text::{char_from, copy_chars, find_char};

verus! {

/// How long the character is in UTF-8.
pub open spec fn char_len(c: char) -> int {
    encode_scalar(c as u32).len() as int
}

pub fn char_byte_len(c: char) -> (r: usize)
    ensures
        r == char_len(c),
        1 <= r <= 4,
{
    let n = c as u32;
    if n <= 0x7f {
        1
    } else if n <= 0x7ff {
        2
    } else if n <= 0xffff {
        3
    } else {
        4
    }
}

pub proof fn lemma_byte_len_first(s: Seq<char>)
    requires
        s.len() > 0,
    ensures
        byte_len(s) == char_len(s[0]) + byte_len(s.drop_first()),
        char_len(s[0]) >= 1,
{
}

/// The longest end of `s` that takes at most `limit` bytes.
pub open spec fn recent(s: Seq<char>, limit: int) -> Seq<char>
    decreases s.len(),
{
    if s.len() == 0 || byte_len(s) <= limit {
        s
    } else {
        recent(s.drop_first(), limit)
    }
}

/// The recent part is an end of the text within the limit, and no longer one
/// is.
pub proof fn recent_text_is_bounded(s: Seq<char>, limit: int)
    requires
        limit >= 0,
    ensures
        byte_len(recent(s, limit)) <= limit,
        recent(s, limit).len() <= s.len(),
        recent(s, limit) == s.skip(s.len() - recent(s, limit).len()),
        recent(s, limit).len() < s.len() ==> byte_len(
            s.skip(s.len() - recent(s, limit).len() - 1),
        ) > limit,
    decreases s.len(),
{
    if s.len() == 0 || byte_len(s) <= limit {
        assert(s.skip(0) =~= s);
    } else {
        let t = s.drop_first();
        recent_text_is_bounded(t, limit);
        let n = recent(s, limit).len();
        assert(t.skip(t.len() - n) =~= s.skip(s.len() - n));
        if n < t.len() {
            assert(t.skip(t.len() - n - 1) =~= s.skip(s.len() - n - 1));
        } else {
            assert(s.skip(0) =~= s);
        }
    }
}

/// Where the recent part begins.
proof fn lemma_recent_from(s: Seq<char>, limit: int, i: int)
    requires
        0 <= i <= s.len(),
        limit >= 0,
        byte_len(s.skip(i)) <= limit,
        i > 0 ==> byte_len(s.skip(i - 1)) > limit,
    ensures
        recent(s, limit) == s.skip(i),
    decreases i,
{
    if i == 0 {
        assert(s.skip(0) =~= s);
    } else {
        lemma_byte_len_skip(s, i - 1);
        assert(s.skip(i - 1).len() > 0);
        if i > 1 {
            lemma_byte_len_grows(s, 0, i - 1);
        }
        assert(s.skip(0) =~= s);
        let t = s.drop_first();
        assert(t.skip(i - 1) =~= s.skip(i));
        if i > 1 {
            assert(t.skip(i - 2) =~= s.skip(i - 1));
        }
        lemma_recent_from(t, limit, i - 1);
    }
}

proof fn lemma_byte_len_skip(s: Seq<char>, i: int)
    requires
        0 <= i < s.len(),
    ensures
        byte_len(s.skip(i)) == char_len(s[i]) + byte_len(s.skip(i + 1)),
        char_len(s[i]) >= 1,
{
    lemma_byte_len_first(s.skip(i));
    assert(s.skip(i).drop_first() =~= s.skip(i + 1));
}

proof fn lemma_byte_len_grows(s: Seq<char>, i: int, j: int)
    requires
        0 <= i <= j <= s.len(),
    ensures
        byte_len(s.skip(i)) >= byte_len(s.skip(j)),
    decreases j - i,
{
    if i < j {
        lemma_byte_len_skip(s, i);
        lemma_byte_len_grows(s, i + 1, j);
    }
}

/// Where the longest end of `s` begins that takes at most `limit` bytes.
pub fn recent_start(s: &[char], limit: usize) -> (r: usize)
    requires
        limit <= 0x1000_0000,
    ensures
        r <= s@.len(),
        recent(s@, limit as int) == s@.skip(r as int),
{
    let mut i: usize = s.len();
    let mut size: usize = 0;
    assert(s@.skip(s@.len() as int) =~= Seq::<char>::empty());
    while i > 0
        invariant
            i <= s@.len(),
            size <= limit,
            limit <= 0x1000_0000,
            size == byte_len(s@.skip(i as int)),
        decreases i,
    {
        proof {
            lemma_byte_len_skip(s@, i - 1);
        }
        let more = char_byte_len(s[i - 1]);
        if size + more > limit {
            proof {
                lemma_recent_from(s@, limit as int, i as int);
            }
            return i;
        }
        size = size + more;
        i = i - 1;
    }
    proof {
        lemma_recent_from(s@, limit as int, 0);
    }
    0
}

/// Cuts the text to its recent part.
pub fn trim_to_recent_chars(text: &mut Vec<char>, limit: usize)
    requires
        limit <= 0x1000_0000,
    ensures
        final(text)@ == recent(old(text)@, limit as int),
{
    let start = recent_start(text.as_slice(), limit);
    if start > 0 {
        let kept = copy_chars(text.as_slice(), start, text.len());
        assert(kept@ =~= text@.skip(start as int));
        *text = kept;
    } else {
        assert(text@.skip(0) =~= text@);
    }
}

/// The offset behind the last line feed.
pub open spec fn lines_end(s: Seq<char>, end: int) -> int
    decreases end,
{
    if !(0 < end <= s.len()) {
        0
    } else if s[end - 1] == '\n' {
        end
    } else {
        lines_end(s, end - 1)
    }
}

/// The lines of `s` that are complete, as far as they are recent: a line that
/// the limit cuts is left out.
pub open spec fn recent_lines(s: Seq<char>, limit: int) -> Seq<char> {
    let whole = s.take(lines_end(s, s.len() as int));
    let last = recent(whole, limit);
    let start = whole.len() - last.len();
    if start <= 0 || whole[start - 1] == '\n' {
        last
    } else {
        let k = char_from(last, '\n', 0);
        if k < last.len() {
            last.skip(k + 1)
        } else {
            Seq::empty()
        }
    }
}

/// The complete recent lines of a text.
pub fn recent_complete_lines(text: &[char], limit: usize) -> (r: Vec<char>)
    requires
        limit <= 0x1000_0000,
    ensures
        r@ == recent_lines(text@, limit as int),
{
    let mut end: usize = text.len();
    while end > 0 && text[end - 1] != '\n'
        invariant
            end <= text@.len(),
            lines_end(text@, text@.len() as int) == lines_end(text@, end as int),
        decreases end,
    {
        end = end - 1;
    }
    let whole = copy_chars(text, 0, end);
    assert(whole@ =~= text@.take(end as int));
    let start = recent_start(whole.as_slice(), limit);
    let ghost last = whole@.skip(start as int);
    let recent_part = copy_chars(whole.as_slice(), start, whole.len());
    assert(recent_part@ =~= last);
    if start == 0 || whole[start - 1] == '\n' {
        return recent_part;
    }
    match find_char(recent_part.as_slice(), '\n', 0) {
        Some(k) => {
            let r = copy_chars(recent_part.as_slice(), k + 1, recent_part.len());
            assert(r@ =~= last.skip(k + 1));
            r
        },
        None => {
            let none: Vec<char> = Vec::new();
            assert(none@ =~= Seq::<char>::empty());
            none
        },
    }
}

} // verus!
