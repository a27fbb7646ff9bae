//! Text helpers: characters, white space, ASCII case, lines and words, order,
//! and numbers as text.

use vstd::prelude::*;
use vstd::string::*;

verus! {

/// `String::push` appends one character.
pub assume_specification[ String::push ](s: &mut String, c: char)
    ensures
        final(s)@ == old(s)@.push(c),
;

/// The characters of `s`.
pub fn chars_of(s: &str) -> (r: Vec<char>)
    ensures
        r@ == s@,
{
    let mut out: Vec<char> = Vec::new();
    for c in iter: s.chars()
        invariant
            out@ == s@.take(iter.index()),
            iter.seq() == s@,
    {
        out.push(c);
        assert(s@.take(iter.index() + 1) =~= s@.take(iter.index()).push(s@[iter.index()]));
    }
    assert(s@.take(s@.len() as int) =~= s@);
    out
}

/// The text made of the characters `cs`.
pub fn text_from(cs: &[char]) -> (r: String)
    ensures
        r@ == cs@,
{
    let mut out = String::new();
    let mut i: usize = 0;
    assert(out@ =~= cs@.take(0));
    while i < cs.len()
        invariant
            i <= cs@.len(),
            out@ == cs@.take(i as int),
        decreases cs@.len() - i,
    {
        assert(cs@.take(i + 1) =~= cs@.take(i as int).push(cs@[i as int]));
        out.push(cs[i]);
        i = i + 1;
    }
    assert(cs@.take(i as int) =~= cs@);
    out
}

/// A copy of `s`.
pub fn copy_text(s: &str) -> (r: String)
    ensures
        r@ == s@,
{
    String::from_str(s)
}

/// `a` and `b` in one.
pub fn concat(a: &str, b: &str) -> (r: String)
    ensures
        r@ == a@ + b@,
{
    let mut out = String::from_str(a);
    out.append(b);
    out
}

/// `b` between `a` and `c`.
pub fn concat3(a: &str, b: &str, c: &str) -> (r: String)
    ensures
        r@ == a@ + b@ + c@,
{
    let mut out = String::from_str(a);
    out.append(b);
    out.append(c);
    out
}

/// Whether the character strings are the same.
pub fn same_chars(a: &[char], b: &[char]) -> (r: bool)
    ensures
        r == (a@ == b@),
{
    if a.len() != b.len() {
        return false;
    }
    let mut i: usize = 0;
    while i < a.len()
        invariant
            i <= a@.len(),
            a@.len() == b@.len(),
            forall|k: int| 0 <= k < i ==> a@[k] == b@[k],
        decreases a@.len() - i,
    {
        if a[i] != b[i] {
            assert(a@[i as int] != b@[i as int]);
            return false;
        }
        i = i + 1;
    }
    assert(a@ =~= b@);
    true
}

/// Whether the texts are the same.
pub fn same_text(a: &str, b: &str) -> (r: bool)
    ensures
        r == (a@ == b@),
{
    same_chars(chars_of(a).as_slice(), chars_of(b).as_slice())
}

/// Characters with the Unicode property White_Space.
pub open spec fn whitespace(c: char) -> bool {
    let n = c as int;
    ||| 0x09 <= n <= 0x0d
    ||| n == 0x20
    ||| n == 0x85
    ||| n == 0xa0
    ||| n == 0x1680
    ||| 0x2000 <= n <= 0x200a
    ||| n == 0x2028
    ||| n == 0x2029
    ||| n == 0x202f
    ||| n == 0x205f
    ||| n == 0x3000
}

pub fn is_whitespace(c: char) -> (r: bool)
    ensures
        r == whitespace(c),
{
    let n = c as u32;
    (0x09 <= n && n <= 0x0d) || n == 0x20 || n == 0x85 || n == 0xa0 || n == 0x1680 || (0x2000 <= n
        && n <= 0x200a) || n == 0x2028 || n == 0x2029 || n == 0x202f || n == 0x205f || n == 0x3000
}

/// Characters of the Unicode category Cc.
pub open spec fn control_char(c: char) -> bool {
    0 <= (c as int) <= 0x1f || 0x7f <= (c as int) <= 0x9f
}

pub fn is_control_char(c: char) -> (r: bool)
    ensures
        r == control_char(c),
{
    let n = c as u32;
    n <= 0x1f || (0x7f <= n && n <= 0x9f)
}

pub open spec fn ascii_control_char(c: char) -> bool {
    0 <= (c as int) <= 0x1f || (c as int) == 0x7f
}

pub fn is_ascii_control_char(c: char) -> (r: bool)
    ensures
        r == ascii_control_char(c),
{
    let n = c as u32;
    n <= 0x1f || n == 0x7f
}

/// ASCII white space: tab, line feed, form feed, carriage return, space.
pub open spec fn ascii_space_char(c: char) -> bool {
    c == ' ' || c == '\t' || c == '\n' || c == '\r' || (c as int) == 0x0c
}

pub fn is_ascii_space_char(c: char) -> (r: bool)
    ensures
        r == ascii_space_char(c),
{
    c == ' ' || c == '\t' || c == '\n' || c == '\r' || (c as u32) == 0x0c
}

pub open spec fn ascii_digit_char(c: char) -> bool {
    0x30 <= (c as int) <= 0x39
}

pub open spec fn ascii_letter_char(c: char) -> bool {
    0x41 <= (c as int) <= 0x5a || 0x61 <= (c as int) <= 0x7a
}

pub open spec fn ascii_alnum_char(c: char) -> bool {
    ascii_digit_char(c) || ascii_letter_char(c)
}

pub fn is_ascii_digit_char(c: char) -> (r: bool)
    ensures
        r == ascii_digit_char(c),
{
    let n = c as u32;
    0x30 <= n && n <= 0x39
}

pub fn is_ascii_letter_char(c: char) -> (r: bool)
    ensures
        r == ascii_letter_char(c),
{
    let n = c as u32;
    (0x41 <= n && n <= 0x5a) || (0x61 <= n && n <= 0x7a)
}

pub fn is_ascii_alnum_char(c: char) -> (r: bool)
    ensures
        r == ascii_alnum_char(c),
{
    is_ascii_digit_char(c) || is_ascii_letter_char(c)
}

/// The character with an ASCII capital mapped to its small letter.
pub open spec fn char_lower(c: char) -> char {
    if 0x41 <= (c as int) <= 0x5a {
        ((c as int) + 32) as char
    } else {
        c
    }
}

/// The text with ASCII capitals mapped to small letters.
pub open spec fn lowered(s: Seq<char>) -> Seq<char> {
    s.map_values(|c: char| char_lower(c))
}

pub fn to_lower_char(c: char) -> (r: char)
    ensures
        r == char_lower(c),
{
    if c >= 'A' && c <= 'Z' {
        (c as u8 + 32) as char
    } else {
        c
    }
}

pub fn to_lower_chars(cs: &[char]) -> (r: Vec<char>)
    ensures
        r@ == lowered(cs@),
{
    let mut out: Vec<char> = Vec::new();
    let mut i: usize = 0;
    while i < cs.len()
        invariant
            i <= cs@.len(),
            out@.len() == i,
            forall|k: int| 0 <= k < i ==> #[trigger] out@[k] == char_lower(cs@[k]),
        decreases cs@.len() - i,
    {
        out.push(to_lower_char(cs[i]));
        i = i + 1;
    }
    assert(out@ =~= lowered(cs@));
    out
}

/// First offset at or behind `i` that holds no white space.
pub open spec fn skip_space(s: Seq<char>, i: int) -> int
    decreases s.len() - i,
{
    if 0 <= i < s.len() && whitespace(s[i]) {
        skip_space(s, i + 1)
    } else {
        i
    }
}

/// First offset at or behind `i` that holds white space.
pub open spec fn skip_word(s: Seq<char>, i: int) -> int
    decreases s.len() - i,
{
    if 0 <= i < s.len() && !whitespace(s[i]) {
        skip_word(s, i + 1)
    } else {
        i
    }
}

/// Offset behind the last character before `end` that is no white space.
pub open spec fn space_start(s: Seq<char>, end: int) -> int
    decreases end,
{
    if 0 < end <= s.len() && whitespace(s[end - 1]) {
        space_start(s, end - 1)
    } else {
        end
    }
}

pub proof fn lemma_skip(s: Seq<char>, i: int)
    requires
        0 <= i <= s.len(),
    ensures
        i <= skip_space(s, i) <= s.len(),
        i <= skip_word(s, i) <= s.len(),
        forall|k: int| i <= k < skip_space(s, i) ==> whitespace(#[trigger] s[k]),
        forall|k: int| i <= k < skip_word(s, i) ==> !whitespace(#[trigger] s[k]),
        skip_space(s, i) < s.len() ==> !whitespace(s[skip_space(s, i)]),
        skip_word(s, i) < s.len() ==> whitespace(s[skip_word(s, i)]),
    decreases s.len() - i,
{
    if i < s.len() {
        lemma_skip(s, i + 1);
    }
}

pub proof fn lemma_space_start(s: Seq<char>, end: int)
    requires
        0 <= end <= s.len(),
    ensures
        0 <= space_start(s, end) <= end,
        space_start(s, end) > 0 ==> !whitespace(s[space_start(s, end) - 1]),
        forall|k: int| space_start(s, end) <= k < end ==> whitespace(#[trigger] s[k]),
    decreases end,
{
    if 0 < end && whitespace(s[end - 1]) {
        lemma_space_start(s, end - 1);
    }
}

/// `s` without white space at its end.
pub open spec fn trimmed_end(s: Seq<char>) -> Seq<char> {
    s.subrange(0, space_start(s, s.len() as int))
}

/// `s` without white space at its start and end.
pub open spec fn trimmed(s: Seq<char>) -> Seq<char> {
    let start = skip_space(s, 0);
    if start >= s.len() {
        Seq::empty()
    } else {
        s.subrange(start, space_start(s, s.len() as int))
    }
}

pub fn trim_end<'a>(s: &'a [char]) -> (r: &'a [char])
    ensures
        r@ == trimmed_end(s@),
{
    let mut end: usize = s.len();
    while end > 0 && is_whitespace(s[end - 1])
        invariant
            end <= s@.len(),
            space_start(s@, s@.len() as int) == space_start(s@, end as int),
        decreases end,
    {
        end = end - 1;
    }
    vstd::slice::slice_subrange(s, 0, end)
}

pub fn trim<'a>(s: &'a [char]) -> (r: &'a [char])
    ensures
        r@ == trimmed(s@),
{
    proof {
        lemma_skip(s@, 0);
        lemma_space_start(s@, s@.len() as int);
    }
    let mut start: usize = 0;
    while start < s.len() && is_whitespace(s[start])
        invariant
            start <= s@.len(),
            skip_space(s@, 0) == skip_space(s@, start as int),
        decreases s@.len() - start,
    {
        start = start + 1;
    }
    let mut end: usize = s.len();
    if start >= end {
        let r = vstd::slice::slice_subrange(s, 0, 0);
        assert(r@ =~= Seq::<char>::empty());
        return r;
    }
    while end > 0 && is_whitespace(s[end - 1])
        invariant
            end <= s@.len(),
            space_start(s@, s@.len() as int) == space_start(s@, end as int),
        decreases end,
    {
        end = end - 1;
    }
    assert(start < end) by {
        if end <= start {
            assert(whitespace(s@[start as int]));
        }
    }
    vstd::slice::slice_subrange(s, start, end)
}

/// The words of `s[i..]`: the longest runs without white space.
pub open spec fn words_from(s: Seq<char>, i: int) -> Seq<Seq<char>>
    decreases s.len() - i,
{
    let a = skip_space(s, i);
    let b = skip_word(s, a);
    if 0 <= i <= a < b <= s.len() {
        seq![s.subrange(a, b)] + words_from(s, b)
    } else {
        Seq::empty()
    }
}

pub open spec fn words(s: Seq<char>) -> Seq<Seq<char>> {
    words_from(s, 0)
}

pub open spec fn char_views(parts: Seq<Vec<char>>) -> Seq<Seq<char>> {
    parts.map_values(|p: Vec<char>| p@)
}

pub open spec fn text_views(parts: Seq<String>) -> Seq<Seq<char>> {
    parts.map_values(|p: String| p@)
}

pub fn copy_chars(s: &[char], from: usize, to: usize) -> (r: Vec<char>)
    requires
        from <= to <= s@.len(),
    ensures
        r@ == s@.subrange(from as int, to as int),
{
    vstd::slice::slice_to_vec(vstd::slice::slice_subrange(s, from, to))
}

/// Splits at white space.
pub fn split_words(s: &[char]) -> (r: Vec<Vec<char>>)
    ensures
        char_views(r@) == words(s@),
{
    let mut out: Vec<Vec<char>> = Vec::new();
    let mut i: usize = 0;
    let len = s.len();
    assert(char_views(out@) + words_from(s@, 0) =~= words(s@));
    while i < len
        invariant
            len == s@.len(),
            i <= len,
            char_views(out@) + words_from(s@, i as int) == words(s@),
        decreases len - i,
    {
        proof {
            lemma_skip(s@, i as int);
        }
        let ghost from = i as int;
        let mut a: usize = i;
        while a < len && is_whitespace(s[a])
            invariant
                len == s@.len(),
                from <= a <= len,
                skip_space(s@, from) == skip_space(s@, a as int),
            decreases len - a,
        {
            a = a + 1;
        }
        if a >= len {
            assert(words_from(s@, from) =~= Seq::<Seq<char>>::empty());
            assert(char_views(out@) =~= words(s@));
            return out;
        }
        let mut b: usize = a;
        proof {
            lemma_skip(s@, a as int);
        }
        while b < len && !is_whitespace(s[b])
            invariant
                len == s@.len(),
                a <= b <= len,
                skip_word(s@, a as int) == skip_word(s@, b as int),
            decreases len - b,
        {
            b = b + 1;
        }
        let ghost before = char_views(out@);
        out.push(copy_chars(s, a, b));
        assert(char_views(out@) =~= before.push(s@.subrange(a as int, b as int)));
        assert(before + words_from(s@, from) =~= char_views(out@) + words_from(s@, b as int));
        i = b;
    }
    assert(words_from(s@, i as int) =~= Seq::<Seq<char>>::empty());
    assert(char_views(out@) =~= words(s@));
    out
}

/// Offset of the first `c` in `s` at or behind `i`; the length where there is
/// none.
pub open spec fn char_from(s: Seq<char>, c: char, i: int) -> int
    decreases s.len() - i,
{
    if !(0 <= i < s.len()) {
        s.len() as int
    } else if s[i] == c {
        i
    } else {
        char_from(s, c, i + 1)
    }
}

pub proof fn lemma_char_from(s: Seq<char>, c: char, i: int)
    requires
        0 <= i <= s.len(),
    ensures
        i <= char_from(s, c, i) <= s.len(),
        char_from(s, c, i) < s.len() ==> s[char_from(s, c, i)] == c,
        forall|k: int| i <= k < char_from(s, c, i) ==> #[trigger] s[k] != c,
    decreases s.len() - i,
{
    if i < s.len() && s[i] != c {
        lemma_char_from(s, c, i + 1);
    }
}

pub fn find_char(s: &[char], c: char, from: usize) -> (r: Option<usize>)
    requires
        from <= s@.len(),
    ensures
        match r {
            Some(i) => i == char_from(s@, c, from as int) && from <= i < s@.len() && s@[i as int]
                == c,
            None => char_from(s@, c, from as int) == s@.len(),
        },
{
    let mut i: usize = from;
    while i < s.len()
        invariant
            from <= i <= s@.len(),
            char_from(s@, c, from as int) == char_from(s@, c, i as int),
        decreases s@.len() - i,
    {
        if s[i] == c {
            return Some(i);
        }
        i = i + 1;
    }
    None
}

/// The line `s[from..to]` without the CR of a CR LF ending.
pub open spec fn line_content(s: Seq<char>, from: int, to: int) -> Seq<char> {
    if from < to && s[to - 1] == '\r' {
        s.subrange(from, to - 1)
    } else {
        s.subrange(from, to)
    }
}

/// The lines of `s[i..]`. They end at LF or CR LF; the last line needs no
/// ending.
pub open spec fn lines_from(s: Seq<char>, i: int) -> Seq<Seq<char>>
    decreases s.len() - i,
{
    let k = char_from(s, '\n', i);
    if !(0 <= i < s.len()) {
        Seq::empty()
    } else if i <= k < s.len() {
        seq![line_content(s, i, k)] + lines_from(s, k + 1)
    } else {
        seq![s.subrange(i, s.len() as int)]
    }
}

pub open spec fn lines(s: Seq<char>) -> Seq<Seq<char>> {
    lines_from(s, 0)
}

pub fn split_lines(s: &[char]) -> (r: Vec<Vec<char>>)
    ensures
        char_views(r@) == lines(s@),
{
    let mut out: Vec<Vec<char>> = Vec::new();
    let mut i: usize = 0;
    let len = s.len();
    assert(char_views(out@) + lines_from(s@, 0) =~= lines(s@));
    while i < len
        invariant
            len == s@.len(),
            i <= len,
            char_views(out@) + lines_from(s@, i as int) == lines(s@),
        decreases len - i,
    {
        let ghost before = char_views(out@);
        match find_char(s, '\n', i) {
            Some(k) => {
                let end: usize = if i < k && s[k - 1] == '\r' {
                    k - 1
                } else {
                    k
                };
                out.push(copy_chars(s, i, end));
                assert(char_views(out@) =~= before.push(line_content(s@, i as int, k as int)));
                assert(before + lines_from(s@, i as int) =~= char_views(out@) + lines_from(
                    s@,
                    k + 1,
                ));
                i = k + 1;
            },
            None => {
                out.push(copy_chars(s, i, len));
                assert(char_views(out@) =~= before.push(s@.subrange(i as int, len as int)));
                assert(before + lines_from(s@, i as int) =~= char_views(out@));
                return out;
            },
        }
    }
    assert(char_views(out@) =~= lines(s@));
    out
}

pub open spec fn text_starts_with(s: Seq<char>, p: Seq<char>) -> bool {
    p.len() <= s.len() && s.subrange(0, p.len() as int) == p
}

pub open spec fn text_ends_with(s: Seq<char>, p: Seq<char>) -> bool {
    p.len() <= s.len() && s.subrange(s.len() - p.len(), s.len() as int) == p
}

/// `p` stands at offset `i` of `s`.
pub open spec fn text_at(s: Seq<char>, p: Seq<char>, i: int) -> bool {
    0 <= i && i + p.len() <= s.len() && s.subrange(i, i + p.len()) == p
}

pub open spec fn text_contains(s: Seq<char>, p: Seq<char>) -> bool {
    exists|i: int| #[trigger] text_at(s, p, i)
}

/// `s` contains `p`, without regard to ASCII case.
pub open spec fn contains_ci(s: Seq<char>, p: Seq<char>) -> bool {
    text_contains(lowered(s), lowered(p))
}

/// `s` starts with `p`, without regard to ASCII case.
pub open spec fn starts_with_ci(s: Seq<char>, p: Seq<char>) -> bool {
    text_starts_with(lowered(s), lowered(p))
}

pub fn chars_at(s: &[char], p: &[char], i: usize) -> (r: bool)
    ensures
        r == text_at(s@, p@, i as int),
{
    if i > s.len() || p.len() > s.len() - i {
        return false;
    }
    same_chars(vstd::slice::slice_subrange(s, i, i + p.len()), p)
}

pub fn chars_start_with(s: &[char], p: &[char]) -> (r: bool)
    ensures
        r == text_starts_with(s@, p@),
{
    chars_at(s, p, 0)
}

pub fn chars_end_with(s: &[char], p: &[char]) -> (r: bool)
    ensures
        r == text_ends_with(s@, p@),
{
    if p.len() > s.len() {
        return false;
    }
    chars_at(s, p, s.len() - p.len())
}

pub fn find_chars(s: &[char], p: &[char], from: usize) -> (r: Option<usize>)
    ensures
        match r {
            Some(i) => from <= i && text_at(s@, p@, i as int) && forall|k: int|
                from <= k < i ==> !#[trigger] text_at(s@, p@, k),
            None => forall|k: int| from <= k ==> !#[trigger] text_at(s@, p@, k),
        },
{
    let mut i: usize = from;
    let len = s.len();
    while i <= len
        invariant
            len == s@.len(),
            from <= i,
            forall|k: int| from <= k < i ==> !#[trigger] text_at(s@, p@, k),
        decreases len + 1 - i,
    {
        if chars_at(s, p, i) {
            return Some(i);
        }
        if i == len {
            return None;
        }
        i = i + 1;
    }
    None
}

pub fn chars_contain(s: &[char], p: &[char]) -> (r: bool)
    ensures
        r == text_contains(s@, p@),
{
    find_chars(s, p, 0).is_some()
}

pub fn contains_case_insensitive(haystack: &[char], needle: &[char]) -> (r: bool)
    ensures
        r == contains_ci(haystack@, needle@),
{
    chars_contain(to_lower_chars(haystack).as_slice(), to_lower_chars(needle).as_slice())
}

pub fn starts_with_case_insensitive(haystack: &[char], needle: &[char]) -> (r: bool)
    ensures
        r == starts_with_ci(haystack@, needle@),
{
    chars_start_with(to_lower_chars(haystack).as_slice(), to_lower_chars(needle).as_slice())
}

/// Lexicographic order by code points, which is the order of the UTF-8 bytes.
pub open spec fn text_less(a: Seq<char>, b: Seq<char>) -> bool
    decreases a.len(),
{
    if b.len() == 0 {
        false
    } else if a.len() == 0 {
        true
    } else if a[0] != b[0] {
        (a[0] as int) < (b[0] as int)
    } else {
        text_less(a.drop_first(), b.drop_first())
    }
}

pub fn chars_less(a: &[char], b: &[char]) -> (r: bool)
    ensures
        r == text_less(a@, b@),
{
    let mut i: usize = 0;
    assert(a@.subrange(0, a@.len() as int) =~= a@);
    assert(b@.subrange(0, b@.len() as int) =~= b@);
    while i < a.len() && i < b.len()
        invariant
            i <= a@.len(),
            i <= b@.len(),
            text_less(a@, b@) == text_less(
                a@.subrange(i as int, a@.len() as int),
                b@.subrange(i as int, b@.len() as int),
            ),
        decreases a@.len() - i,
    {
        let ghost x = a@.subrange(i as int, a@.len() as int);
        let ghost y = b@.subrange(i as int, b@.len() as int);
        if a[i] != b[i] {
            let p: char = a[i];
            let q: char = b[i];
            return p < q;
        }
        assert(x.drop_first() =~= a@.subrange(i + 1, a@.len() as int));
        assert(y.drop_first() =~= b@.subrange(i + 1, b@.len() as int));
        i = i + 1;
    }
    i < b.len()
}

pub fn text_is_less(a: &str, b: &str) -> (r: bool)
    ensures
        r == text_less(a@, b@),
{
    chars_less(chars_of(a).as_slice(), chars_of(b).as_slice())
}

pub proof fn lemma_text_less_total(a: Seq<char>, b: Seq<char>)
    ensures
        text_less(a, b) || text_less(b, a) || a == b,
        !(text_less(a, b) && text_less(b, a)),
        !text_less(a, a),
    decreases a.len(),
{
    if a.len() == 0 && b.len() == 0 {
        assert(a =~= b);
    } else if a.len() > 0 && b.len() > 0 {
        lemma_text_less_total(a.drop_first(), b.drop_first());
        if a[0] == b[0] && a.drop_first() == b.drop_first() {
            assert(a =~= seq![a[0]] + a.drop_first());
            assert(b =~= seq![b[0]] + b.drop_first());
            assert(a =~= b);
        }
        if a[0] != b[0] {
            assert((a[0] as int) != (b[0] as int));
        }
        lemma_text_less_irreflexive(a);
    } else {
        lemma_text_less_irreflexive(a);
    }
}

pub proof fn lemma_text_less_irreflexive(a: Seq<char>)
    ensures
        !text_less(a, a),
    decreases a.len(),
{
    if a.len() > 0 {
        lemma_text_less_irreflexive(a.drop_first());
    }
}

pub proof fn lemma_text_less_transitive(a: Seq<char>, b: Seq<char>, c: Seq<char>)
    requires
        text_less(a, b),
        text_less(b, c),
    ensures
        text_less(a, c),
    decreases a.len(),
{
    if a.len() > 0 && a[0] == b[0] && b[0] == c[0] {
        lemma_text_less_transitive(a.drop_first(), b.drop_first(), c.drop_first());
    }
}

/// The decimal digits of `n`.
pub open spec fn decimal(n: nat) -> Seq<char>
    decreases n,
{
    if n < 10 {
        seq![(0x30 + n) as char]
    } else {
        decimal(n / 10).push((0x30 + n % 10) as char)
    }
}

pub fn decimal_text(n: u64) -> (r: String)
    ensures
        r@ == decimal(n as nat),
    decreases n,
{
    if n < 10 {
        let mut out = String::new();
        out.push((0x30 + n as u8) as char);
        assert(out@ =~= decimal(n as nat));
        out
    } else {
        let mut out = decimal_text(n / 10);
        out.push((0x30 + (n % 10) as u8) as char);
        out
    }
}

/// The hexadecimal digit of `n < 16`, in small letters.
pub open spec fn hex_digit(n: nat) -> char {
    if n < 10 {
        (0x30 + n) as char
    } else {
        (0x57 + n) as char
    }
}

/// The hexadecimal digits of `n`.
pub open spec fn hexadecimal(n: nat) -> Seq<char>
    decreases n,
{
    if n < 16 {
        seq![hex_digit(n)]
    } else {
        hexadecimal(n / 16).push(hex_digit(n % 16))
    }
}

pub fn hex_digit_char(n: u8) -> (r: char)
    requires
        n < 16,
    ensures
        r == hex_digit(n as nat),
{
    if n < 10 {
        (0x30 + n) as char
    } else {
        (0x57 + n) as char
    }
}

pub fn hex_text(n: u32) -> (r: String)
    ensures
        r@ == hexadecimal(n as nat),
    decreases n,
{
    if n < 16 {
        let mut out = String::new();
        out.push(hex_digit_char(n as u8));
        assert(out@ =~= hexadecimal(n as nat));
        out
    } else {
        let mut out = hex_text(n / 16);
        out.push(hex_digit_char((n % 16) as u8));
        out
    }
}

} // verus!
