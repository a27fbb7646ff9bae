//! The terminal control grammar: where a control sequence begins and ends,
//! how input divides into controls and visible text, and what single control
//! sequences mean.

use vstd::prelude::*;

use crate::bytes::{copy_range, push_all, same_bytes, starts_with};
use crate::utf8::{
    byte_is_inside_utf8_codepoint_or_prefix, char_width_at, inside_char,
    valid_utf8_char_width_at,
};

verus! {

pub open spec fn c1_byte(b: u8) -> bool {
    0x80 <= b <= 0x9f
}

/// Width of the C1 control at `i`: 1 for the single-byte form, 2 for the
/// UTF-8 form `C2 80` to `C2 9F`, 0 where there is none.
pub open spec fn c1_width_at(s: Seq<u8>, i: int) -> int {
    if !(0 <= i < s.len()) {
        0
    } else if c1_byte(s[i]) {
        1
    } else if s[i] == 0xc2 && i + 1 < s.len() && c1_byte(s[i + 1]) {
        2
    } else {
        0
    }
}

/// The control that the C1 form at `i` stands for.
pub open spec fn c1_code_at(s: Seq<u8>, i: int) -> u8 {
    if c1_width_at(s, i) == 2 {
        s[i + 1]
    } else {
        s[i]
    }
}

/// The two-byte string terminator `C2 9C`.
pub open spec fn wide_terminator_at(s: Seq<u8>, i: int) -> bool {
    c1_width_at(s, i) == 2 && c1_code_at(s, i) == 0x9c
}

/// A byte that cancels a control sequence: CAN or SUB.
pub open spec fn cancels(b: u8) -> bool {
    b == 0x18 || b == 0x1a
}

/// An ESC or a C1 control starts at `i`.
pub open spec fn control_at(s: Seq<u8>, i: int) -> bool {
    s[i] == 0x1b || c1_width_at(s, i) > 0
}

/// End of the unit of text at `i`: one well-formed character or one byte.
pub open spec fn text_unit_end(s: Seq<u8>, i: int) -> int {
    if char_width_at(s, i) > 0 {
        i + char_width_at(s, i)
    } else {
        i + 1
    }
}

/// End of the parameters and final byte of a CSI sequence, from `i` on. The
/// sequence also ends before another control, and after CAN or SUB.
pub open spec fn csi_end(s: Seq<u8>, i: int) -> int
    decreases s.len() - i,
{
    if !(0 <= i < s.len()) {
        i
    } else if control_at(s, i) {
        i
    } else if char_width_at(s, i) > 0 {
        csi_end(s, i + char_width_at(s, i))
    } else if cancels(s[i]) || 0x40 <= s[i] <= 0x7e {
        i + 1
    } else {
        csi_end(s, i + 1)
    }
}

/// Offset behind the terminator of a control string whose payload goes on at
/// `i`: BEL where `bel` allows it, CAN, SUB, ST in any of its three forms.
pub open spec fn string_end(s: Seq<u8>, i: int, bel: bool) -> Option<int>
    decreases s.len() - i,
{
    if !(0 <= i < s.len()) {
        None
    } else if wide_terminator_at(s, i) {
        Some(i + 2)
    } else if char_width_at(s, i) > 0 {
        string_end(s, i + char_width_at(s, i), bel)
    } else if (bel && s[i] == 0x07) || cancels(s[i]) {
        Some(i + 1)
    } else if s[i] == 0x9c && !inside_char(s, i) {
        Some(i + 1)
    } else if s[i] == 0x1b && i + 1 < s.len() && s[i + 1] == 0x5c {
        Some(i + 2)
    } else {
        string_end(s, i + 1, bel)
    }
}

/// As [`string_end`], with the end of input for a string left open.
pub open spec fn string_end_or_all(s: Seq<u8>, i: int, bel: bool) -> int {
    match string_end(s, i, bel) {
        Some(end) => end,
        None => s.len() as int,
    }
}

/// End of an ESC sequence with intermediate bytes, from `i` on.
pub open spec fn intermediate_end(s: Seq<u8>, i: int) -> int
    decreases s.len() - i,
{
    if !(0 <= i < s.len()) {
        i
    } else if s[i] == 0x1b || c1_byte(s[i]) {
        i
    } else if cancels(s[i]) || s[i] >= 0x30 && s[i] != 0x7f {
        i + 1
    } else {
        intermediate_end(s, i + 1)
    }
}

/// Bytes behind ESC that open a control string other than OSC: DCS, SOS, PM
/// and APC.
pub open spec fn opens_esc_string(b: u8) -> bool {
    b == 0x50 || b == 0x58 || b == 0x5e || b == 0x5f
}

/// The C1 counterparts of [`opens_esc_string`].
pub open spec fn opens_c1_string(b: u8) -> bool {
    b == 0x90 || b == 0x98 || b == 0x9e || b == 0x9f
}

/// End of the control sequence that the ESC at `i` opens.
pub open spec fn esc_end(s: Seq<u8>, i: int) -> int {
    if i + 1 >= s.len() {
        s.len() as int
    } else if c1_width_at(s, i + 1) > 0 {
        i + 1
    } else if s[i + 1] == 0x5b {
        csi_end(s, i + 2)
    } else if s[i + 1] == 0x5d {
        string_end_or_all(s, i + 2, true)
    } else if opens_esc_string(s[i + 1]) {
        string_end_or_all(s, i + 2, false)
    } else if 0x20 <= s[i + 1] <= 0x2f {
        intermediate_end(s, i + 1)
    } else if s[i + 1] == 0x1b {
        i + 1
    } else {
        i + 2
    }
}

/// End of the control sequence that the C1 control at `i` opens.
pub open spec fn c1_end(s: Seq<u8>, i: int) -> int {
    let w = c1_width_at(s, i);
    let code = c1_code_at(s, i);
    if w == 0 {
        i + 1
    } else if code == 0x9b {
        csi_end(s, i + w)
    } else if code == 0x9d {
        string_end_or_all(s, i + w, true)
    } else if opens_c1_string(code) {
        string_end_or_all(s, i + w, false)
    } else {
        i + w
    }
}

/// End of the control sequence at `i`.
pub open spec fn control_end(s: Seq<u8>, i: int) -> int {
    if s[i] == 0x1b {
        esc_end(s, i)
    } else {
        c1_end(s, i)
    }
}

pub proof fn lemma_csi_end(s: Seq<u8>, i: int)
    requires
        0 <= i <= s.len(),
    ensures
        i <= csi_end(s, i) <= s.len(),
    decreases s.len() - i,
{
    if i < s.len() && !control_at(s, i) {
        if char_width_at(s, i) > 0 {
            lemma_csi_end(s, i + char_width_at(s, i));
        } else if !(cancels(s[i]) || 0x40 <= s[i] <= 0x7e) {
            lemma_csi_end(s, i + 1);
        }
    }
}

pub proof fn lemma_string_end(s: Seq<u8>, i: int, bel: bool)
    requires
        0 <= i <= s.len(),
    ensures
        match string_end(s, i, bel) {
            Some(end) => i < end <= s.len(),
            None => true,
        },
    decreases s.len() - i,
{
    if i < s.len() && !wide_terminator_at(s, i) {
        if char_width_at(s, i) > 0 {
            lemma_string_end(s, i + char_width_at(s, i), bel);
        } else {
            lemma_string_end(s, i + 1, bel);
        }
    }
}

pub proof fn lemma_intermediate_end(s: Seq<u8>, i: int)
    requires
        0 <= i <= s.len(),
    ensures
        i <= intermediate_end(s, i) <= s.len(),
    decreases s.len() - i,
{
    if i < s.len() {
        lemma_intermediate_end(s, i + 1);
    }
}

/// A control sequence has at least one byte and ends within the input.
pub proof fn lemma_control_end(s: Seq<u8>, i: int)
    requires
        0 <= i < s.len(),
    ensures
        i < control_end(s, i) <= s.len(),
        i < esc_end(s, i) <= s.len(),
        i < c1_end(s, i) <= s.len(),
{
    let w = c1_width_at(s, i);
    if i + 1 < s.len() {
        lemma_intermediate_end(s, i + 1);
        lemma_csi_end(s, i + 2);
        lemma_string_end(s, i + 2, true);
        lemma_string_end(s, i + 2, false);
    }
    lemma_csi_end(s, i + w);
    lemma_string_end(s, i + w, true);
    lemma_string_end(s, i + w, false);
}

/// One piece of terminal input: a control sequence or a run of visible text.
#[derive(Clone, Debug)]
pub enum Token {
    Ansi(Vec<u8>),
    Text(Vec<u8>),
}

/// The content of a [`Token`].
pub enum TokenView {
    Ansi(Seq<u8>),
    Text(Seq<u8>),
}

impl View for Token {
    type V = TokenView;

    open spec fn view(&self) -> TokenView {
        match self {
            Token::Ansi(bytes) => TokenView::Ansi(bytes@),
            Token::Text(bytes) => TokenView::Text(bytes@),
        }
    }
}

impl TokenView {
    pub open spec fn bytes(self) -> Seq<u8> {
        match self {
            TokenView::Ansi(bytes) => bytes,
            TokenView::Text(bytes) => bytes,
        }
    }
}

pub open spec fn token_views(tokens: Seq<Token>) -> Seq<TokenView> {
    tokens.map_values(|t: Token| t@)
}

/// The text run `s[from..to]` as a token, or nothing if it is empty.
pub open spec fn text_run(s: Seq<u8>, from: int, to: int) -> Seq<TokenView> {
    if from < to {
        seq![TokenView::Text(s.subrange(from, to))]
    } else {
        Seq::empty()
    }
}

/// The tokens of `s` from `i` on, where `s[text..i]` is visible text that has
/// not been put into a token yet.
pub open spec fn tokens_from(s: Seq<u8>, text: int, i: int) -> Seq<TokenView>
    decreases s.len() - i,
{
    if !(0 <= i < s.len()) {
        text_run(s, text, i)
    } else if control_at(s, i) {
        proof {
            lemma_control_end(s, i);
        }
        let end = control_end(s, i);
        text_run(s, text, i).push(TokenView::Ansi(s.subrange(i, end))) + tokens_from(s, end, end)
    } else {
        tokens_from(s, text, text_unit_end(s, i))
    }
}

/// The tokens of `s`.
pub open spec fn tokens_of(s: Seq<u8>) -> Seq<TokenView> {
    tokens_from(s, 0, 0)
}

/// The visible text of `s` from `i` on.
pub open spec fn visible_from(s: Seq<u8>, i: int) -> Seq<u8>
    decreases s.len() - i,
{
    if !(0 <= i < s.len()) {
        Seq::empty()
    } else if control_at(s, i) {
        proof {
            lemma_control_end(s, i);
        }
        visible_from(s, control_end(s, i))
    } else {
        s.subrange(i, text_unit_end(s, i)) + visible_from(s, text_unit_end(s, i))
    }
}

/// The visible text of `s`: what is left without its control sequences.
pub open spec fn visible(s: Seq<u8>) -> Seq<u8> {
    visible_from(s, 0)
}

/// The text of the text tokens, one after another.
pub open spec fn text_of(tokens: Seq<TokenView>) -> Seq<u8>
    decreases tokens.len(),
{
    if tokens.len() == 0 {
        Seq::empty()
    } else {
        text_of(tokens.drop_last()) + match tokens.last() {
            TokenView::Text(bytes) => bytes,
            TokenView::Ansi(_) => Seq::empty(),
        }
    }
}

/// The bytes of all tokens, one after another.
pub open spec fn joined(tokens: Seq<TokenView>) -> Seq<u8>
    decreases tokens.len(),
{
    if tokens.len() == 0 {
        Seq::empty()
    } else {
        joined(tokens.drop_last()) + tokens.last().bytes()
    }
}

pub proof fn lemma_text_of_concat(a: Seq<TokenView>, b: Seq<TokenView>)
    ensures
        text_of(a + b) == text_of(a) + text_of(b),
        joined(a + b) == joined(a) + joined(b),
    decreases b.len(),
{
    if b.len() == 0 {
        assert(a + b =~= a);
    } else {
        assert((a + b).drop_last() =~= a + b.drop_last());
        lemma_text_of_concat(a, b.drop_last());
    }
}

proof fn lemma_text_run(s: Seq<u8>, from: int, to: int)
    requires
        0 <= from <= to <= s.len(),
    ensures
        text_of(text_run(s, from, to)) == s.subrange(from, to),
        joined(text_run(s, from, to)) == s.subrange(from, to),
{
    let run = text_run(s, from, to);
    if from < to {
        assert(run.drop_last() =~= Seq::<TokenView>::empty());
        reveal_with_fuel(text_of, 2);
        reveal_with_fuel(joined, 2);
        assert(text_of(run) =~= s.subrange(from, to));
        assert(joined(run) =~= s.subrange(from, to));
    } else {
        assert(s.subrange(from, to) =~= Seq::<u8>::empty());
    }
}

proof fn lemma_tokens_from(s: Seq<u8>, text: int, i: int)
    requires
        0 <= text <= i <= s.len(),
    ensures
        text_of(tokens_from(s, text, i)) == s.subrange(text, i) + visible_from(s, i),
        joined(tokens_from(s, text, i)) == s.subrange(text, s.len() as int),
    decreases s.len() - i,
{
    lemma_text_run(s, text, i);
    if i < s.len() {
        if control_at(s, i) {
            lemma_control_end(s, i);
            let end = control_end(s, i);
            lemma_tokens_from(s, end, end);
            let run = text_run(s, text, i);
            let ansi = TokenView::Ansi(s.subrange(i, end));
            assert(run.push(ansi).drop_last() =~= run);
            assert(text_of(run.push(ansi)) =~= s.subrange(text, i));
            lemma_text_of_concat(run.push(ansi), tokens_from(s, end, end));
            assert(s.subrange(end, end) =~= Seq::<u8>::empty());
            assert(text_of(tokens_from(s, text, i)) =~= s.subrange(text, i) + visible_from(s, i));
            assert(joined(tokens_from(s, text, i)) =~= s.subrange(text, s.len() as int));
        } else {
            let end = text_unit_end(s, i);
            lemma_tokens_from(s, text, end);
            assert(s.subrange(text, end) =~= s.subrange(text, i) + s.subrange(i, end));
            assert(text_of(tokens_from(s, text, i)) =~= s.subrange(text, i) + visible_from(s, i));
        }
    } else {
        assert(text_of(tokens_from(s, text, i)) =~= s.subrange(text, i) + visible_from(s, i));
    }
}

/// Tokenizing loses nothing: the tokens of any input, put one after another,
/// are that input.
pub proof fn tokens_join_to_input(s: Seq<u8>)
    ensures
        joined(tokens_of(s)) == s,
{
    lemma_tokens_from(s, 0, 0);
    assert(s.subrange(0, s.len() as int) =~= s);
}

/// The text tokens of any input hold its visible text, in order.
pub proof fn text_tokens_are_the_visible_text(s: Seq<u8>)
    ensures
        text_of(tokens_of(s)) == visible(s),
{
    lemma_tokens_from(s, 0, 0);
    assert(s.subrange(0, 0) + visible(s) =~= visible(s));
}

pub fn is_c1_control(byte: u8) -> (r: bool)
    ensures
        r == c1_byte(byte),
{
    0x80 <= byte && byte <= 0x9f
}

/// The C1 control at `start` with its encoded width. Terminals accept the
/// single-byte form as well as the code point in UTF-8.
pub fn c1_control_at(input: &[u8], start: usize) -> (r: Option<(u8, usize)>)
    ensures
        match r {
            Some((code, width)) => width == c1_width_at(input@, start as int) && 1 <= width <= 2
                && code == c1_code_at(input@, start as int) && c1_byte(code),
            None => c1_width_at(input@, start as int) == 0,
        },
{
    if start >= input.len() {
        return None;
    }
    let byte = input[start];
    if is_c1_control(byte) {
        return Some((byte, 1));
    }
    if byte == 0xc2 && start + 1 < input.len() {
        let control = input[start + 1];
        if is_c1_control(control) {
            return Some((control, 2));
        }
    }
    None
}

pub fn is_control_at(input: &[u8], idx: usize) -> (r: bool)
    requires
        idx < input@.len(),
    ensures
        r == control_at(input@, idx as int),
{
    input[idx] == 0x1b || c1_control_at(input, idx).is_some()
}

pub fn csi_sequence_end(input: &[u8], from: usize) -> (r: usize)
    requires
        from <= input@.len(),
    ensures
        r == csi_end(input@, from as int),
        from <= r <= input@.len(),
{
    let mut idx: usize = from;
    while idx < input.len()
        invariant
            from <= idx <= input@.len(),
            csi_end(input@, from as int) == csi_end(input@, idx as int),
        decreases input@.len() - idx,
    {
        if is_control_at(input, idx) {
            return idx;
        }
        if let Some(width) = valid_utf8_char_width_at(input, idx) {
            idx = idx + width;
            continue;
        }
        let byte = input[idx];
        if byte == 0x18 || byte == 0x1a || (0x40 <= byte && byte <= 0x7e) {
            return idx + 1;
        }
        idx = idx + 1;
    }
    idx
}

pub fn string_terminator_end(input: &[u8], from: usize, allows_bel: bool) -> (r: Option<usize>)
    requires
        from <= input@.len(),
    ensures
        match r {
            Some(end) => string_end(input@, from as int, allows_bel) == Some(end as int) && from
                < end <= input@.len(),
            None => string_end(input@, from as int, allows_bel) is None,
        },
{
    let mut idx: usize = from;
    while idx < input.len()
        invariant
            from <= idx <= input@.len(),
            string_end(input@, from as int, allows_bel) == string_end(
                input@,
                idx as int,
                allows_bel,
            ),
        decreases input@.len() - idx,
    {
        if let Some((code, width)) = c1_control_at(input, idx) {
            if code == 0x9c && width == 2 {
                return Some(idx + 2);
            }
        }
        if let Some(width) = valid_utf8_char_width_at(input, idx) {
            idx = idx + width;
            continue;
        }
        let byte = input[idx];
        if (allows_bel && byte == 0x07) || byte == 0x18 || byte == 0x1a {
            return Some(idx + 1);
        }
        if byte == 0x9c && !byte_is_inside_utf8_codepoint_or_prefix(input, idx) {
            return Some(idx + 1);
        }
        if byte == 0x1b && idx + 1 < input.len() && input[idx + 1] == 0x5c {
            return Some(idx + 2);
        }
        idx = idx + 1;
    }
    None
}

fn string_terminator_end_or_all(input: &[u8], from: usize, allows_bel: bool) -> (r: usize)
    requires
        from <= input@.len(),
    ensures
        r == string_end_or_all(input@, from as int, allows_bel),
        from <= r <= input@.len(),
{
    match string_terminator_end(input, from, allows_bel) {
        Some(end) => end,
        None => input.len(),
    }
}

pub fn osc_sequence_end(input: &[u8], from: usize) -> (r: usize)
    requires
        from <= input@.len(),
    ensures
        r == string_end_or_all(input@, from as int, true),
        from <= r <= input@.len(),
{
    string_terminator_end_or_all(input, from, true)
}

pub fn string_sequence_end(input: &[u8], from: usize) -> (r: usize)
    requires
        from <= input@.len(),
    ensures
        r == string_end_or_all(input@, from as int, false),
        from <= r <= input@.len(),
{
    string_terminator_end_or_all(input, from, false)
}

pub fn esc_intermediate_sequence_end(input: &[u8], start: usize) -> (r: usize)
    requires
        start < input@.len(),
    ensures
        r == intermediate_end(input@, start + 1),
{
    let len = input.len();
    let mut idx: usize = start + 1;
    while idx < len
        invariant
            len == input@.len(),
            start + 1 <= idx <= input@.len(),
            intermediate_end(input@, start + 1) == intermediate_end(input@, idx as int),
        decreases input@.len() - idx,
    {
        let byte = input[idx];
        if byte == 0x1b || is_c1_control(byte) {
            return idx;
        }
        if byte == 0x18 || byte == 0x1a || (byte >= 0x30 && byte != 0x7f) {
            return idx + 1;
        }
        idx = idx + 1;
    }
    idx
}

pub fn ansi_sequence_end(input: &[u8], start: usize) -> (r: usize)
    requires
        start < input@.len(),
    ensures
        r == esc_end(input@, start as int),
        start < r <= input@.len(),
{
    proof {
        lemma_control_end(input@, start as int);
    }
    let len = input.len();
    if start + 1 >= len {
        return len;
    }
    if c1_control_at(input, start + 1).is_some() {
        return start + 1;
    }
    let byte = input[start + 1];
    if byte == 0x5b {
        csi_sequence_end(input, start + 2)
    } else if byte == 0x5d {
        osc_sequence_end(input, start + 2)
    } else if byte == 0x50 || byte == 0x58 || byte == 0x5e || byte == 0x5f {
        string_sequence_end(input, start + 2)
    } else if 0x20 <= byte && byte <= 0x2f {
        esc_intermediate_sequence_end(input, start)
    } else if byte == 0x1b {
        start + 1
    } else {
        start + 2
    }
}

pub fn c1_string_escape_end(input: &[u8], start: usize, control: u8, width: usize) -> (r: usize)
    requires
        start + width <= input@.len(),
    ensures
        r == (if control == 0x9d {
            string_end_or_all(input@, start + width, true)
        } else if opens_c1_string(control) {
            string_end_or_all(input@, start + width, false)
        } else {
            start + width
        }),
{
    let len = input.len();
    assert(start + width <= len);
    let payload: usize = start + width;
    if control == 0x9d {
        osc_sequence_end(input, payload)
    } else if control == 0x90 || control == 0x98 || control == 0x9e || control == 0x9f {
        string_sequence_end(input, payload)
    } else {
        payload
    }
}

pub fn c1_sequence_end(input: &[u8], start: usize) -> (r: usize)
    requires
        start < input@.len(),
    ensures
        r == c1_end(input@, start as int),
        start < r <= input@.len(),
{
    proof {
        lemma_control_end(input@, start as int);
    }
    let len = input.len();
    assert(start < len);
    let (control, width) = match c1_control_at(input, start) {
        Some(found) => found,
        None => return start + 1,
    };
    if control == 0x9b {
        csi_sequence_end(input, start + width)
    } else {
        c1_string_escape_end(input, start, control, width)
    }
}

pub fn control_sequence_end(input: &[u8], idx: usize) -> (r: usize)
    requires
        idx < input@.len(),
    ensures
        r == control_end(input@, idx as int),
        idx < r <= input@.len(),
{
    if input[idx] == 0x1b {
        ansi_sequence_end(input, idx)
    } else {
        c1_sequence_end(input, idx)
    }
}

pub fn tokenize_ansi(input: &[u8]) -> (r: Vec<Token>)
    ensures
        token_views(r@) == tokens_of(input@),
{
    let mut tokens: Vec<Token> = Vec::new();
    let mut text: usize = 0;
    let mut idx: usize = 0;
    let ghost s = input@;
    assert(token_views(tokens@) =~= Seq::<TokenView>::empty());
    assert(token_views(tokens@) + tokens_from(s, 0, 0) =~= tokens_of(s));
    while idx < input.len()
        invariant
            s == input@,
            text <= idx <= s.len(),
            token_views(tokens@) + tokens_from(s, text as int, idx as int) == tokens_of(s),
        decreases s.len() - idx,
    {
        if is_control_at(input, idx) {
            proof {
                lemma_control_end(s, idx as int);
            }
            let ghost before = token_views(tokens@);
            let end = control_sequence_end(input, idx);
            if text < idx {
                tokens.push(Token::Text(copy_range(input, text, idx)));
                assert(token_views(tokens@) =~= before + text_run(s, text as int, idx as int));
            } else {
                assert(token_views(tokens@) =~= before + text_run(s, text as int, idx as int));
            }
            let ghost middle = token_views(tokens@);
            tokens.push(Token::Ansi(copy_range(input, idx, end)));
            let ghost ansi = TokenView::Ansi(s.subrange(idx as int, end as int));
            assert(token_views(tokens@) =~= middle.push(ansi));
            assert(before + (text_run(s, text as int, idx as int).push(ansi) + tokens_from(
                s,
                end as int,
                end as int,
            )) =~= token_views(tokens@) + tokens_from(s, end as int, end as int));
            idx = end;
            text = end;
        } else if let Some(width) = valid_utf8_char_width_at(input, idx) {
            idx = idx + width;
        } else {
            idx = idx + 1;
        }
    }
    let ghost before = token_views(tokens@);
    if text < idx {
        tokens.push(Token::Text(copy_range(input, text, idx)));
    }
    assert(token_views(tokens@) =~= before + text_run(s, text as int, idx as int));
    tokens
}

pub fn visible_bytes(tokens: &[Token]) -> (r: Vec<u8>)
    ensures
        r@ == text_of(token_views(tokens@)),
{
    let mut visible: Vec<u8> = Vec::new();
    let mut i: usize = 0;
    let ghost views = token_views(tokens@);
    while i < tokens.len()
        invariant
            i <= tokens@.len(),
            views == token_views(tokens@),
            visible@ == text_of(views.take(i as int)),
        decreases tokens@.len() - i,
    {
        assert(views.take(i + 1).drop_last() =~= views.take(i as int));
        assert(views.take(i + 1).last() == tokens@[i as int]@);
        if let Token::Text(text) = &tokens[i] {
            push_all(&mut visible, text.as_slice());
        }
        assert(visible@ =~= text_of(views.take(i + 1)));
        i = i + 1;
    }
    assert(views.take(i as int) =~= views);
    visible
}

/// Removes control sequences and returns only the visible bytes.
pub fn strip_ansi(input: &[u8]) -> (r: Vec<u8>)
    ensures
        r@ == visible(input@),
{
    proof {
        text_tokens_are_the_visible_text(input@);
    }
    let tokens = tokenize_ansi(input);
    visible_bytes(tokens.as_slice())
}

/// Offset of the first `b` in `s` at or behind `i`; the length where there is
/// none.
pub open spec fn index_from(s: Seq<u8>, b: u8, i: int) -> int
    decreases s.len() - i,
{
    if !(0 <= i < s.len()) {
        s.len() as int
    } else if s[i] == b {
        i
    } else {
        index_from(s, b, i + 1)
    }
}

pub proof fn lemma_index_from(s: Seq<u8>, b: u8, i: int)
    requires
        0 <= i <= s.len(),
    ensures
        i <= index_from(s, b, i) <= s.len(),
        index_from(s, b, i) < s.len() ==> s[index_from(s, b, i)] == b,
        forall|k: int| i <= k < index_from(s, b, i) ==> s[k] != b,
    decreases s.len() - i,
{
    if i < s.len() && s[i] != b {
        lemma_index_from(s, b, i + 1);
    }
}

/// The fields of `s[i..]` between separators `sep`. There is always one field
/// more than there are separators.
pub open spec fn fields_from(s: Seq<u8>, sep: u8, i: int) -> Seq<Seq<u8>>
    decreases s.len() - i,
{
    let k = index_from(s, sep, i);
    if 0 <= i <= k < s.len() {
        seq![s.subrange(i, k)] + fields_from(s, sep, k + 1)
    } else {
        seq![s.subrange(i, s.len() as int)]
    }
}

pub open spec fn fields(s: Seq<u8>, sep: u8) -> Seq<Seq<u8>> {
    fields_from(s, sep, 0)
}

pub open spec fn byte_views(parts: Seq<Vec<u8>>) -> Seq<Seq<u8>> {
    parts.map_values(|p: Vec<u8>| p@)
}

/// Splits `s` at every `sep`.
pub fn split_fields(s: &[u8], sep: u8) -> (r: Vec<Vec<u8>>)
    ensures
        byte_views(r@) == fields(s@, sep),
        r@.len() >= 1,
{
    let mut out: Vec<Vec<u8>> = Vec::new();
    let mut from: usize = 0;
    let mut i: usize = 0;
    assert(byte_views(out@) + fields_from(s@, sep, 0) =~= fields(s@, sep));
    while i < s.len()
        invariant
            from <= i <= s@.len(),
            index_from(s@, sep, from as int) == index_from(s@, sep, i as int),
            byte_views(out@) + fields_from(s@, sep, from as int) == fields(s@, sep),
        decreases s@.len() - i,
    {
        if s[i] == sep {
            let ghost before = byte_views(out@);
            out.push(copy_range(s, from, i));
            assert(byte_views(out@) =~= before.push(s@.subrange(from as int, i as int)));
            assert(before + fields_from(s@, sep, from as int) =~= byte_views(out@) + fields_from(
                s@,
                sep,
                i + 1,
            ));
            from = i + 1;
        }
        i = i + 1;
    }
    let ghost before = byte_views(out@);
    out.push(copy_range(s, from, s.len()));
    assert(byte_views(out@) =~= before.push(s@.subrange(from as int, s@.len() as int)));
    assert(byte_views(out@) =~= before + fields_from(s@, sep, from as int));
    out
}

/// Length of the CSI introducer at the start of `s`: `ESC [`, the raw C1 `9B`
/// or its UTF-8 form; 0 where `s` is no CSI sequence.
pub open spec fn csi_intro(s: Seq<u8>) -> int {
    if starts_with(s, seq![0x1bu8, 0x5bu8]) || starts_with(s, seq![0xc2u8, 0x9bu8]) {
        2
    } else if starts_with(s, seq![0x9bu8]) {
        1
    } else {
        0
    }
}

pub fn csi_introducer_len(bytes: &[u8]) -> (r: Option<usize>)
    ensures
        match r {
            Some(n) => n == csi_intro(bytes@) && 1 <= n <= 2 && n <= bytes@.len(),
            None => csi_intro(bytes@) == 0,
        },
{
    let ghost s = bytes@;
    assert(s.len() >= 2 ==> s.subrange(0, 2) =~= seq![s[0], s[1]]);
    assert(s.len() >= 1 ==> s.subrange(0, 1) =~= seq![s[0]]);
    assert(seq![0x1bu8, 0x5bu8][0] == 0x1b && seq![0x1bu8, 0x5bu8][1] == 0x5b);
    assert(seq![0xc2u8, 0x9bu8][0] == 0xc2 && seq![0xc2u8, 0x9bu8][1] == 0x9b);
    assert(seq![0x9bu8][0] == 0x9b);
    if bytes.len() >= 2 && ((bytes[0] == 0x1b && bytes[1] == 0x5b) || (bytes[0] == 0xc2 && bytes[1]
        == 0x9b)) {
        Some(2)
    } else if bytes.len() >= 1 && bytes[0] == 0x9b {
        Some(1)
    } else {
        None
    }
}

pub fn is_csi_sequence(bytes: &[u8]) -> (r: bool)
    ensures
        r == (csi_intro(bytes@) > 0),
{
    csi_introducer_len(bytes).is_some()
}

/// Private modes that switch to the alternate screen: 47, 1047 and 1049.
pub open spec fn alternate_screen_mode(mode: Seq<u8>) -> bool {
    mode == seq![0x34u8, 0x37u8] || mode == seq![0x31u8, 0x30u8, 0x34u8, 0x37u8] || mode
        == seq![0x31u8, 0x30u8, 0x34u8, 0x39u8]
}

/// What the control sequence `s` does to the alternate screen: `Some(true)`
/// enters it, `Some(false)` leaves it.
pub open spec fn screen_command(s: Seq<u8>) -> Option<bool> {
    let n = csi_intro(s);
    if n > 0 && n < s.len() - 1 && s[n] == 0x3f && (s.last() == 0x68 || s.last() == 0x6c) && exists|
        k: int,
    |
        0 <= k < fields(s.subrange(n + 1, s.len() - 1), 0x3b).len() && alternate_screen_mode(
            #[trigger] fields(s.subrange(n + 1, s.len() - 1), 0x3b)[k],
        ) {
        Some(s.last() == 0x68)
    } else {
        None
    }
}

fn is_alternate_screen_mode(mode: &[u8]) -> (r: bool)
    ensures
        r == alternate_screen_mode(mode@),
{
    let ghost m = mode@;
    assert(m.len() == 2 ==> m =~= seq![m[0], m[1]]);
    assert(m.len() == 4 ==> m =~= seq![m[0], m[1], m[2], m[3]]);
    assert(seq![0x34u8, 0x37u8].len() == 2);
    if mode.len() == 2 {
        mode[0] == 0x34 && mode[1] == 0x37
    } else if mode.len() == 4 {
        mode[0] == 0x31 && mode[1] == 0x30 && mode[2] == 0x34 && (mode[3] == 0x37 || mode[3]
            == 0x39)
    } else {
        false
    }
}

pub fn alternate_screen_command(bytes: &[u8]) -> (r: Option<bool>)
    ensures
        r == screen_command(bytes@),
{
    let introducer = match csi_introducer_len(bytes) {
        Some(n) => n,
        None => return None,
    };
    if introducer + 1 >= bytes.len() || bytes[introducer] != 0x3f {
        return None;
    }
    let final_byte = bytes[bytes.len() - 1];
    if final_byte != 0x68 && final_byte != 0x6c {
        return None;
    }
    let modes = split_fields(
        vstd::slice::slice_subrange(bytes, introducer + 1, bytes.len() - 1),
        0x3b,
    );
    let ghost f = fields(bytes@.subrange(introducer + 1, bytes@.len() - 1), 0x3b);
    let mut k: usize = 0;
    while k < modes.len()
        invariant
            k <= modes@.len(),
            byte_views(modes@) == f,
            f == fields(bytes@.subrange(introducer + 1, bytes@.len() - 1), 0x3b),
            introducer == csi_intro(bytes@),
            0 < introducer < bytes@.len() - 1,
            bytes@[introducer as int] == 0x3f,
            final_byte == bytes@.last(),
            final_byte == 0x68 || final_byte == 0x6c,
            forall|j: int| 0 <= j < k ==> !alternate_screen_mode(#[trigger] f[j]),
        decreases modes@.len() - k,
    {
        assert(f[k as int] == modes@[k as int]@);
        if is_alternate_screen_mode(modes[k].as_slice()) {
            assert(alternate_screen_mode(
                fields(bytes@.subrange(introducer + 1, bytes@.len() - 1), 0x3b)[k as int],
            ));
            return Some(final_byte == 0x68);
        }
        k = k + 1;
    }
    None
}

pub fn is_alternate_screen_enable(bytes: &[u8]) -> (r: bool)
    ensures
        r == (screen_command(bytes@) == Some(true)),
{
    match alternate_screen_command(bytes) {
        Some(enable) => enable,
        None => false,
    }
}

pub fn is_alternate_screen_disable(bytes: &[u8]) -> (r: bool)
    ensures
        r == (screen_command(bytes@) == Some(false)),
{
    match alternate_screen_command(bytes) {
        Some(enable) => !enable,
        None => false,
    }
}

/// Final bytes of the sequences that move the cursor.
pub open spec fn moves_cursor(b: u8) -> bool {
    0x41 <= b <= 0x48 || b == 0x66
}

pub open spec fn cursor_sequence(s: Seq<u8>) -> bool {
    csi_intro(s) > 0 && moves_cursor(s.last())
}

/// Final bytes of the sequences that move the cursor or erase cells.
pub open spec fn changes_layout(b: u8) -> bool {
    moves_cursor(b) || b == 0x4a || b == 0x4b || b == 0x58 || b == 0x64
}

pub open spec fn layout_sequence(s: Seq<u8>) -> bool {
    csi_intro(s) > 0 && changes_layout(s.last())
}

pub open spec fn paste_disable(s: Seq<u8>) -> bool {
    csi_intro(s) > 0 && s.subrange(csi_intro(s), s.len() as int)
        == seq![0x3fu8, 0x32u8, 0x30u8, 0x30u8, 0x34u8, 0x6cu8]
}

pub fn is_cursor_positioning_sequence(bytes: &[u8]) -> (r: bool)
    ensures
        r == cursor_sequence(bytes@),
{
    if !is_csi_sequence(bytes) {
        return false;
    }
    let last = bytes[bytes.len() - 1];
    (0x41 <= last && last <= 0x48) || last == 0x66
}

pub fn is_interactive_layout_boundary_sequence(bytes: &[u8]) -> (r: bool)
    ensures
        r == layout_sequence(bytes@),
{
    if !is_csi_sequence(bytes) {
        return false;
    }
    let last = bytes[bytes.len() - 1];
    (0x41 <= last && last <= 0x48) || last == 0x66 || last == 0x4a || last == 0x4b || last == 0x58
        || last == 0x64
}

pub fn is_bracketed_paste_disable(bytes: &[u8]) -> (r: bool)
    ensures
        r == paste_disable(bytes@),
{
    match csi_introducer_len(bytes) {
        Some(n) => same_bytes(
            vstd::slice::slice_subrange(bytes, n, bytes.len()),
            &[0x3f, 0x32, 0x30, 0x30, 0x34, 0x6c],
        ),
        None => false,
    }
}

/// Some control sequence among the tokens satisfies `p`.
pub open spec fn some_control(tokens: Seq<TokenView>, p: spec_fn(Seq<u8>) -> bool) -> bool {
    exists|k: int|
        0 <= k < tokens.len() && #[trigger] tokens[k] is Ansi && p(tokens[k]->Ansi_0)
}

/// Some control switches to the alternate screen.
pub open spec fn enables_screen(tokens: Seq<TokenView>) -> bool {
    some_control(tokens, |s: Seq<u8>| screen_command(s) == Some(true))
}

pub fn contains_alternate_screen_enable_tokens(tokens: &[Token]) -> (r: bool)
    ensures
        r == enables_screen(token_views(tokens@)),
{
    let ghost views = token_views(tokens@);
    let mut k: usize = 0;
    while k < tokens.len()
        invariant
            k <= tokens@.len(),
            views == token_views(tokens@),
            forall|j: int|
                0 <= j < k ==> !(#[trigger] views[j] is Ansi && screen_command(views[j]->Ansi_0)
                    == Some(true)),
        decreases tokens@.len() - k,
    {
        assert(views[k as int] == tokens@[k as int]@);
        if let Token::Ansi(bytes) = &tokens[k] {
            if is_alternate_screen_enable(bytes.as_slice()) {
                return true;
            }
        }
        k = k + 1;
    }
    false
}

/// Some control places the cursor.
pub open spec fn places_cursor(tokens: Seq<TokenView>) -> bool {
    some_control(tokens, |s: Seq<u8>| cursor_sequence(s))
}

pub fn contains_cursor_positioning_sequence_tokens(tokens: &[Token]) -> (r: bool)
    ensures
        r == places_cursor(token_views(tokens@)),
{
    let ghost views = token_views(tokens@);
    let mut k: usize = 0;
    while k < tokens.len()
        invariant
            k <= tokens@.len(),
            views == token_views(tokens@),
            forall|j: int|
                0 <= j < k ==> !(#[trigger] views[j] is Ansi && cursor_sequence(
                    views[j]->Ansi_0,
                )),
        decreases tokens@.len() - k,
    {
        assert(views[k as int] == tokens@[k as int]@);
        if let Token::Ansi(bytes) = &tokens[k] {
            if is_cursor_positioning_sequence(bytes.as_slice()) {
                return true;
            }
        }
        k = k + 1;
    }
    false
}

/// Some control ends bracketed paste.
pub open spec fn disables_paste(tokens: Seq<TokenView>) -> bool {
    some_control(tokens, |s: Seq<u8>| paste_disable(s))
}

pub fn contains_bracketed_paste_disable_tokens(tokens: &[Token]) -> (r: bool)
    ensures
        r == disables_paste(token_views(tokens@)),
{
    let ghost views = token_views(tokens@);
    let mut k: usize = 0;
    while k < tokens.len()
        invariant
            k <= tokens@.len(),
            views == token_views(tokens@),
            forall|j: int|
                0 <= j < k ==> !(#[trigger] views[j] is Ansi && paste_disable(views[j]->Ansi_0)),
        decreases tokens@.len() - k,
    {
        assert(views[k as int] == tokens@[k as int]@);
        if let Token::Ansi(bytes) = &tokens[k] {
            if is_bracketed_paste_disable(bytes.as_slice()) {
                return true;
            }
        }
        k = k + 1;
    }
    false
}

} // verus!
