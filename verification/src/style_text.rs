//! Laws about style descriptions: a style reads back from the text that
//! describes it, and capital letters make no difference.

use vstd::prelude::*;
use vstd::utf8::{is_ascii_chars, is_ascii_chars_encode_utf8};

use crate::config::{CaptureView, ConfigIssue};
use crate::documents::{all_digit_chars, capture_name, digit_value, text_key};
use crate::palette::{entry_color, rgb_of, style_of, with_token, with_tokens, StyleIssue};
use crate::style::{Rgb, Style};
use crate::text::{
    ascii_alnum_char, ascii_digit_char, decimal, lowered, skip_space, skip_word, space_start,
    trimmed, whitespace, words, words_from,
};

verus! {

/// A hexadecimal digit.
pub open spec fn hex_digit(n: int) -> char {
    if n < 10 {
        (48 + n) as char
    } else {
        (87 + n) as char
    }
}

/// A color as `#rrggbb`.
pub open spec fn hash_text(c: Rgb) -> Seq<char> {
    seq![
        '#',
        hex_digit(c.r as int / 16),
        hex_digit(c.r as int % 16),
        hex_digit(c.g as int / 16),
        hex_digit(c.g as int % 16),
        hex_digit(c.b as int / 16),
        hex_digit(c.b as int % 16),
    ]
}

/// `token` behind `text`, with a space between them.
pub open spec fn and_then(text: Seq<char>, token: Seq<char>) -> Seq<char> {
    if text.len() == 0 {
        token
    } else {
        text + seq![' '] + token
    }
}

pub open spec fn and_if(text: Seq<char>, on: bool, token: Seq<char>) -> Seq<char> {
    if on {
        and_then(text, token)
    } else {
        text
    }
}

pub open spec fn and_color(text: Seq<char>, mark: char, color: Option<Rgb>) -> Seq<char> {
    match color {
        Some(c) => and_then(text, seq![mark] + hash_text(c)),
        None => text,
    }
}

/// A style in words: `f#` and `b#` with its colors, then its attributes.
pub open spec fn style_text(style: Style) -> Seq<char> {
    let colors = and_color(and_color(Seq::empty(), 'f', style.foreground), 'b', style.background);
    let a = and_if(colors, style.bold, seq!['b', 'o', 'l', 'd']);
    let b = and_if(a, style.blink, seq!['b', 'l', 'i', 'n', 'k']);
    let c = and_if(b, style.invert, seq!['i', 'n', 'v', 'e', 'r', 't']);
    let d = and_if(c, style.italic, seq!['i', 't', 'a', 'l', 'i', 'c']);
    let e = and_if(d, style.strike, seq!['s', 't', 'r', 'i', 'k', 'e']);
    and_if(e, style.underline, seq!['u', 'n', 'd', 'e', 'r', 'l', 'i', 'n', 'e'])
}

/// `t` is `s`, some of its letters as capitals.
pub open spec fn with_capitals(s: Seq<char>, t: Seq<char>) -> bool {
    &&& s.len() == t.len()
    &&& forall|k: int|
        0 <= k < s.len() ==> #[trigger] t[k] == s[k] || ('a' <= s[k] <= 'z' && t[k] as int
            == s[k] as int - 32)
}

proof fn lemma_hex_digit(n: int)
    requires
        0 <= n < 16,
    ensures
        0x30 <= hex_digit(n) as int <= 0x39 || 0x61 <= hex_digit(n) as int <= 0x66,
        hex_digit(n) as int == if n < 10 {
            48 + n
        } else {
            87 + n
        },
{
}

proof fn lemma_hash(c: Rgb)
    ensures
        hash_text(c).len() == 7,
        hash_text(c)[0] == '#',
        rgb_of(hash_text(c).subrange(1, 7)) == Ok::<Rgb, StyleIssue>(c),
        forall|k: int|
            1 <= k < 7 ==> 0x30 <= #[trigger] (hash_text(c)[k] as int) <= 0x39 || 0x61
                <= hash_text(c)[k] as int <= 0x66,
        lowered(hash_text(c)) == hash_text(c),
{
    lemma_hex_digit(c.r as int / 16);
    lemma_hex_digit(c.r as int % 16);
    lemma_hex_digit(c.g as int / 16);
    lemma_hex_digit(c.g as int % 16);
    lemma_hex_digit(c.b as int / 16);
    lemma_hex_digit(c.b as int % 16);
    let h = hash_text(c);
    let hex = h.subrange(1, 7);
    assert(hex.len() == 6);
    assert forall|k: int| 0 <= k < hex.len() implies '\0' <= #[trigger] hex[k] <= '\u{7f}' by {
        assert(hex[k] == h[k + 1]);
    }
    assert(is_ascii_chars(hex));
    is_ascii_chars_encode_utf8(hex);
    assert(hex[0] == h[1] && hex[1] == h[2] && hex[2] == h[3] && hex[3] == h[4] && hex[4] == h[5]
        && hex[5] == h[6]);
    assert(c.r as int == (c.r as int / 16) * 16 + c.r as int % 16);
    assert(c.g as int == (c.g as int / 16) * 16 + c.g as int % 16);
    assert(c.b as int == (c.b as int / 16) * 16 + c.b as int % 16);
    assert(lowered(h) =~= h);
}

pub open spec fn one_word(s: Seq<char>) -> bool {
    s.len() > 0 && forall|k: int| 0 <= k < s.len() ==> !whitespace(#[trigger] s[k])
}

proof fn lemma_skips_agree(s: Seq<char>, t: Seq<char>, i: int, n: int)
    requires
        0 <= i <= n <= s.len(),
        n <= t.len(),
        forall|k: int| 0 <= k < n ==> #[trigger] s[k] == t[k],
        n < s.len() ==> whitespace(s[n]),
        n < t.len() ==> whitespace(t[n]),
    ensures
        skip_word(s, i) == skip_word(t, i),
        i <= skip_word(s, i) <= n,
        skip_space(s, i) < n ==> skip_space(t, i) == skip_space(s, i),
        skip_space(s, i) >= n ==> skip_space(t, i) >= n,
        skip_space(s, i) >= i,
    decreases n - i,
{
    if i < n {
        lemma_skips_agree(s, t, i + 1, n);
    } else {
        lemma_past(s, i);
        lemma_past(t, i);
    }
}

proof fn lemma_past(s: Seq<char>, i: int)
    requires
        0 <= i <= s.len(),
    ensures
        i <= skip_space(s, i) <= s.len(),
    decreases s.len() - i,
{
    if i < s.len() {
        lemma_past(s, i + 1);
    }
}

/// One more word at the end is one more word in all.
proof fn lemma_words_grow(s: Seq<char>, w: Seq<char>, i: int)
    requires
        0 <= i <= s.len(),
        one_word(w),
    ensures
        words_from(s + seq![' '] + w, i) == words_from(s, i).push(w),
    decreases s.len() - i,
{
    let t = s + seq![' '] + w;
    let n = s.len() as int;
    assert(forall|k: int| 0 <= k < n ==> s[k] == t[k]);
    assert(t[n] == ' ');
    lemma_past(s, i);
    lemma_skips_agree(s, t, i, n);
    let a = skip_space(s, i);
    if a < n {
        lemma_skips_agree(s, t, a, n);
        let b = skip_word(s, a);
        lemma_starts_word(s, i);
        assert(a < b);
        assert(s.subrange(a, b) =~= t.subrange(a, b));
        lemma_words_grow(s, w, b);
        assert(seq![s.subrange(a, b)] + words_from(s, b).push(w) =~= (seq![s.subrange(a, b)]
            + words_from(s, b)).push(w));
    } else {
        lemma_all_space(s, i);
        lemma_space_run(t, i, n + 1);
        assert(forall|k: int| n + 1 <= k < t.len() ==> t[k] == w[k - n - 1]);
        assert(t[n + 1] == w[0]);
        lemma_word_run(t, n + 1);
        assert(t.subrange(n + 1, t.len() as int) =~= w);
        assert(words_from(t, t.len() as int) =~= Seq::<Seq<char>>::empty());
        assert(words_from(s, i) =~= Seq::<Seq<char>>::empty());
        assert(words_from(t, i) =~= seq![w]);
        assert(Seq::<Seq<char>>::empty().push(w) =~= seq![w]);
    }
}

proof fn lemma_starts_word(s: Seq<char>, i: int)
    requires
        0 <= i <= s.len(),
        skip_space(s, i) < s.len(),
    ensures
        !whitespace(s[skip_space(s, i)]),
        skip_word(s, skip_space(s, i)) > skip_space(s, i),
    decreases s.len() - i,
{
    if i < s.len() && whitespace(s[i]) {
        lemma_starts_word(s, i + 1);
    } else {
        lemma_word_past(s, i + 1);
    }
}

proof fn lemma_word_past(s: Seq<char>, i: int)
    requires
        0 <= i <= s.len(),
    ensures
        i <= skip_word(s, i) <= s.len(),
    decreases s.len() - i,
{
    if i < s.len() {
        lemma_word_past(s, i + 1);
    }
}

proof fn lemma_all_space(s: Seq<char>, i: int)
    requires
        0 <= i <= s.len(),
        skip_space(s, i) >= s.len(),
    ensures
        forall|k: int| i <= k < s.len() ==> whitespace(#[trigger] s[k]),
    decreases s.len() - i,
{
    if i < s.len() {
        if !whitespace(s[i]) {
            assert(skip_space(s, i) == i);
        }
        lemma_all_space(s, i + 1);
    }
}

proof fn lemma_space_run(s: Seq<char>, i: int, end: int)
    requires
        0 <= i <= end < s.len(),
        forall|k: int| i <= k < end ==> whitespace(#[trigger] s[k]),
        !whitespace(s[end]),
    ensures
        skip_space(s, i) == end,
    decreases end - i,
{
    if i < end {
        lemma_space_run(s, i + 1, end);
    }
}

proof fn lemma_word_run(s: Seq<char>, i: int)
    requires
        0 <= i <= s.len(),
        forall|k: int| i <= k < s.len() ==> !whitespace(#[trigger] s[k]),
    ensures
        skip_word(s, i) == s.len(),
    decreases s.len() - i,
{
    if i < s.len() {
        lemma_word_run(s, i + 1);
    }
}

/// `text` describes `style`, whatever comes behind it.
spec fn describes(text: Seq<char>, style: Style) -> bool {
    &&& text.len() == 0 ==> style == Style::plain()
    &&& forall|more: Seq<Seq<char>>|
        #![trigger words(text) + more]
        with_tokens(Style::plain(), words(text) + more, 0, None) == with_tokens(
            style,
            words(text) + more,
            words(text).len() as int,
            None,
        )
}

proof fn lemma_describes_more(text: Seq<char>, style: Style, token: Seq<char>, next: Style)
    requires
        describes(text, style),
        one_word(token),
        lowered(token) == token,
        with_token(style, token, None) == Ok::<Style, StyleIssue>(next),
    ensures
        describes(and_then(text, token), next),
        and_then(text, token).len() > 0,
{
    let longer = and_then(text, token);
    if text.len() == 0 {
        lemma_word_run(token, 0);
        assert(token.subrange(0, token.len() as int) =~= token);
        assert(words_from(token, token.len() as int) =~= Seq::<Seq<char>>::empty());
        assert(words(text) =~= Seq::<Seq<char>>::empty());
        assert(words(longer) =~= words(text).push(token));
    } else {
        lemma_words_grow(text, token, 0);
    }
    let n = words(text).len() as int;
    assert(words(longer) == words(text).push(token));
    assert forall|more: Seq<Seq<char>>|
        #![trigger words(longer) + more]
        with_tokens(Style::plain(), words(longer) + more, 0, None) == with_tokens(
            next,
            words(longer) + more,
            words(longer).len() as int,
            None,
        ) by {
        let all = words(text) + (seq![token] + more);
        assert(words(longer) + more =~= all);
        assert(all[n] == token);
        assert(with_tokens(Style::plain(), all, 0, None) == with_tokens(style, all, n, None));
    }
}

proof fn lemma_words_revealed()
    ensures
        seq!['b', 'o', 'l', 'd'] == "bold"@,
        seq!['b', 'l', 'i', 'n', 'k'] == "blink"@,
        seq!['i', 'n', 'v', 'e', 'r', 't'] == "invert"@,
        seq!['i', 't', 'a', 'l', 'i', 'c'] == "italic"@,
        seq!['s', 't', 'r', 'i', 'k', 'e'] == "strike"@,
        seq!['u', 'n', 'd', 'e', 'r', 'l', 'i', 'n', 'e'] == "underline"@,
        "bold"@.len() == 4,
        "blink"@.len() == 5,
        "invert"@.len() == 6,
        "italic"@.len() == 6,
        "strike"@.len() == 6,
        "underline"@.len() == 9,
        "bold"@[1] == 'o',
        "blink"@[1] == 'l',
        "invert"@[1] == 'n',
        "italic"@[1] == 't',
        "strike"@[1] == 't',
        "strike"@[0] == 's',
{
    reveal_strlit("bold");
    reveal_strlit("blink");
    reveal_strlit("invert");
    reveal_strlit("italic");
    reveal_strlit("strike");
    reveal_strlit("underline");
    assert(seq!['b', 'o', 'l', 'd'] =~= "bold"@);
    assert(seq!['b', 'l', 'i', 'n', 'k'] =~= "blink"@);
    assert(seq!['i', 'n', 'v', 'e', 'r', 't'] =~= "invert"@);
    assert(seq!['i', 't', 'a', 'l', 'i', 'c'] =~= "italic"@);
    assert(seq!['s', 't', 'r', 'i', 'k', 'e'] =~= "strike"@);
    assert(seq!['u', 'n', 'd', 'e', 'r', 'l', 'i', 'n', 'e'] =~= "underline"@);
}

proof fn lemma_color_token(style: Style, mark: char, c: Rgb)
    requires
        mark == 'f' && style.foreground is None || mark == 'b' && style.background is None,
    ensures
        one_word(seq![mark] + hash_text(c)),
        lowered(seq![mark] + hash_text(c)) == seq![mark] + hash_text(c),
        with_token(style, seq![mark] + hash_text(c), None) == Ok::<Style, StyleIssue>(
            if mark == 'f' {
                Style { foreground: Some(c), ..style }
            } else {
                Style { background: Some(c), ..style }
            },
        ),
{
    lemma_hash(c);
    lemma_words_revealed();
    let t = seq![mark] + hash_text(c);
    assert(forall|k: int| 1 <= k < 8 ==> t[k] == hash_text(c)[k - 1]);
    assert forall|k: int| 0 <= k < t.len() implies !whitespace(#[trigger] t[k]) by {
        if k >= 2 {
            assert(t[k] == hash_text(c)[k - 1]);
            assert(0x30 <= (hash_text(c)[k - 1] as int));
        }
    }
    assert(lowered(t) =~= t) by {
        assert forall|k: int| 0 <= k < t.len() implies lowered(t)[k] == t[k] by {
            if k >= 1 {
                assert(lowered(hash_text(c))[k - 1] == hash_text(c)[k - 1]);
            }
        }
    }
    assert(t[0] == mark && t[1] == '#');
    assert(t.subrange(2, 8) =~= hash_text(c).subrange(1, 7));
}

proof fn lemma_plain_word(token: Seq<char>)
    requires
        token.len() > 0,
        forall|k: int| 0 <= k < token.len() ==> 'a' <= #[trigger] token[k] <= 'z',
    ensures
        one_word(token),
        lowered(token) == token,
{
    assert(lowered(token) =~= token);
}

/// Every style that sets something reads back from the words that describe
/// it.
#[verifier::rlimit(60)]
pub proof fn styles_read_back(style: Style)
    requires
        style != Style::plain(),
    ensures
        style_of(style_text(style), None) == Ok::<Style, StyleIssue>(style),
{
    lemma_words_revealed();
    let mut text: Seq<char> = Seq::empty();
    let mut s = Style::plain();
    assert(words(text) =~= Seq::<Seq<char>>::empty());
    assert(describes(text, s));
    if let Some(c) = style.foreground {
        lemma_color_token(s, 'f', c);
        lemma_describes_more(text, s, seq!['f'] + hash_text(c), Style { foreground: Some(c), ..s });
    }
    text = and_color(text, 'f', style.foreground);
    s = Style { foreground: style.foreground, ..s };
    assert(describes(text, s));
    if let Some(c) = style.background {
        lemma_color_token(s, 'b', c);
        lemma_describes_more(text, s, seq!['b'] + hash_text(c), Style { background: Some(c), ..s });
    }
    text = and_color(text, 'b', style.background);
    s = Style { background: style.background, ..s };
    assert(describes(text, s));
    let bold = seq!['b', 'o', 'l', 'd'];
    if style.bold {
        lemma_plain_word(bold);
        lemma_describes_more(text, s, bold, Style { bold: true, ..s });
    }
    text = and_if(text, style.bold, bold);
    s = Style { bold: style.bold, ..s };
    assert(describes(text, s));
    let blink = seq!['b', 'l', 'i', 'n', 'k'];
    if style.blink {
        lemma_plain_word(blink);
        lemma_describes_more(text, s, blink, Style { blink: true, ..s });
    }
    text = and_if(text, style.blink, blink);
    s = Style { blink: style.blink, ..s };
    assert(describes(text, s));
    let invert = seq!['i', 'n', 'v', 'e', 'r', 't'];
    if style.invert {
        lemma_plain_word(invert);
        lemma_describes_more(text, s, invert, Style { invert: true, ..s });
    }
    text = and_if(text, style.invert, invert);
    s = Style { invert: style.invert, ..s };
    assert(describes(text, s));
    let italic = seq!['i', 't', 'a', 'l', 'i', 'c'];
    if style.italic {
        lemma_plain_word(italic);
        lemma_describes_more(text, s, italic, Style { italic: true, ..s });
    }
    text = and_if(text, style.italic, italic);
    s = Style { italic: style.italic, ..s };
    assert(describes(text, s));
    let strike = seq!['s', 't', 'r', 'i', 'k', 'e'];
    if style.strike {
        lemma_plain_word(strike);
        lemma_describes_more(text, s, strike, Style { strike: true, ..s });
    }
    text = and_if(text, style.strike, strike);
    s = Style { strike: style.strike, ..s };
    assert(describes(text, s));
    let underline = seq!['u', 'n', 'd', 'e', 'r', 'l', 'i', 'n', 'e'];
    if style.underline {
        lemma_plain_word(underline);
        lemma_describes_more(text, s, underline, Style { underline: true, ..s });
    }
    text = and_if(text, style.underline, underline);
    s = Style { underline: style.underline, ..s };
    assert(describes(text, s));
    assert(s == style);
    assert(text == style_text(style));
    assert(words(text) + Seq::<Seq<char>>::empty() =~= words(text));
}

proof fn lemma_capital_skips(s: Seq<char>, t: Seq<char>, i: int)
    requires
        with_capitals(s, t),
        0 <= i <= s.len(),
    ensures
        skip_space(s, i) == skip_space(t, i),
        skip_word(s, i) == skip_word(t, i),
    decreases s.len() - i,
{
    if i < s.len() {
        assert(whitespace(t[i]) == whitespace(s[i]));
        lemma_capital_skips(s, t, i + 1);
    }
}

proof fn lemma_capital_words(s: Seq<char>, t: Seq<char>, i: int)
    requires
        with_capitals(s, t),
        0 <= i <= s.len(),
    ensures
        words_from(s, i).len() == words_from(t, i).len(),
        forall|k: int|
            0 <= k < words_from(s, i).len() ==> lowered(#[trigger] words_from(s, i)[k]) == lowered(
                words_from(t, i)[k],
            ),
    decreases s.len() - i,
{
    lemma_past(s, i);
    lemma_capital_skips(s, t, i);
    let a = skip_space(s, i);
    lemma_capital_skips(s, t, a);
    let b = skip_word(s, a);
    lemma_word_past(s, a);
    if a < b {
        lemma_capital_words(s, t, b);
        assert(lowered(s.subrange(a, b)) =~= lowered(t.subrange(a, b))) by {
            assert forall|k: int| 0 <= k < b - a implies lowered(s.subrange(a, b))[k] == lowered(
                t.subrange(a, b),
            )[k] by {
                assert(t[a + k] == s[a + k] || ('a' <= s[a + k] <= 'z' && t[a + k] as int
                    == s[a + k] as int - 32));
            }
        }
        assert forall|k: int| 0 <= k < words_from(s, i).len() implies lowered(
            #[trigger] words_from(s, i)[k],
        ) == lowered(words_from(t, i)[k]) by {
            if k > 0 {
                assert(words_from(s, i)[k] == words_from(s, b)[k - 1]);
                assert(words_from(t, i)[k] == words_from(t, b)[k - 1]);
            }
        }
    }
}

proof fn lemma_same_tokens(
    style: Style,
    x: Seq<Seq<char>>,
    y: Seq<Seq<char>>,
    i: int,
    palette: Option<Seq<(Seq<char>, Rgb)>>,
)
    requires
        x.len() == y.len(),
        0 <= i <= x.len(),
        forall|k: int| 0 <= k < x.len() ==> lowered(#[trigger] x[k]) == lowered(y[k]),
    ensures
        with_tokens(style, x, i, palette) == with_tokens(style, y, i, palette),
    decreases x.len() - i,
{
    if i < x.len() {
        assert(lowered(x[i]) == lowered(y[i]));
        if let Ok(next) = with_token(style, lowered(x[i]), palette) {
            lemma_same_tokens(next, x, y, i + 1, palette);
        }
    }
}

/// A description may have capital letters.
pub proof fn capitals_make_no_difference(
    s: Seq<char>,
    t: Seq<char>,
    palette: Option<Seq<(Seq<char>, Rgb)>>,
)
    requires
        with_capitals(s, t),
    ensures
        style_of(t, palette) == style_of(s, palette),
{
    lemma_capital_words(s, t, 0);
    lemma_same_tokens(Style::plain(), words(s), words(t), 0, palette);
}

/// A palette gives a color as `#rrggbb`.
pub proof fn palette_colors_read_back(c: Rgb)
    ensures
        entry_color(hash_text(c)) == Ok::<Rgb, StyleIssue>(c),
{
    lemma_hash(c);
    let h = hash_text(c);
    assert(!whitespace(h[0]));
    assert(0x30 <= (h[6] as int));
    assert(!whitespace(h[6]));
    assert(skip_space(h, 0) == 0);
    assert(space_start(h, 7) == 7);
    assert(trimmed(h) =~= h);
}

proof fn lemma_decimal_value(n: nat)
    ensures
        decimal(n).len() > 0,
        all_digit_chars(decimal(n)),
        digit_value(decimal(n)) == n,
    decreases n,
{
    let d = decimal(n);
    if n >= 10 {
        lemma_decimal_value(n / 10);
        let head = decimal(n / 10);
        assert(d.drop_last() =~= head);
        assert forall|k: int| 0 <= k < d.len() implies ascii_digit_char(#[trigger] d[k]) by {
            if k < head.len() {
                assert(d[k] == head[k]);
                assert(ascii_digit_char(head[k]));
            }
        }
        assert(n == n / 10 * 10 + n % 10);
    } else {
        assert(d.drop_last() =~= Seq::<char>::empty());
        reveal_with_fuel(digit_value, 2);
    }
}

/// A group of a pattern is referred to by its number, or by its name: a letter
/// or an underscore, then letters, digits and underscores.
pub proof fn groups_have_numbers_and_names(description: Seq<char>, n: usize, name: Seq<char>)
    requires
        name.len() > 0,
        'a' <= name[0] <= 'z' || 'A' <= name[0] <= 'Z' || name[0] == '_',
        forall|k: int|
            1 <= k < name.len() ==> ('a' <= #[trigger] name[k] <= 'z' || 'A' <= name[k] <= 'Z'
                || '0' <= name[k] <= '9' || name[k] == '_'),
    ensures
        text_key(description, decimal(n as nat)) == Ok::<CaptureView, ConfigIssue>(
            CaptureView::Index(n),
        ),
        text_key(description, name) == Ok::<CaptureView, ConfigIssue>(CaptureView::Name(name)),
{
    lemma_decimal_value(n as nat);
    assert(!ascii_digit_char(name[0]));
    assert(!all_digit_chars(name));
    assert(capture_name(name)) by {
        assert forall|k: int| 1 <= k < name.len() implies ascii_alnum_char(#[trigger] name[k])
            || name[k] == '_' by {}
    }
}

} // verus!
