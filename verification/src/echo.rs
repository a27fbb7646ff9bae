//! Typed input and its echo: what a session without device echo shows of the
//! keys, which typed bytes are remembered, and when a held token of output is
//! recognised as their echo.

use vstd::prelude::*;

use crate::bytes::{copy_range, ends_with, has_suffix, push_all};

verus! {

/// How many bytes of the line being typed are remembered.
pub const RECENT_INPUT_WINDOW: usize = 4096;

/// What one key of the input shows.
pub enum EchoStep {
    /// The byte itself.
    Echo(u8),
    /// The character before the cursor goes away.
    Backspace,
    /// A new line.
    Newline,
    /// Nothing, up to this index.
    Skip(int),
    /// Nothing yet: the rest of the key has not been read.
    Incomplete,
}

/// What one key of the input shows.
#[derive(Clone, Copy, Debug, PartialEq, Eq, Structural)]
pub enum LocalEchoStep {
    Echo(u8),
    Backspace,
    Newline,
    Skip(usize),
    Incomplete,
}

impl View for LocalEchoStep {
    type V = EchoStep;

    open spec fn view(&self) -> EchoStep {
        match *self {
            LocalEchoStep::Echo(byte) => EchoStep::Echo(byte),
            LocalEchoStep::Backspace => EchoStep::Backspace,
            LocalEchoStep::Newline => EchoStep::Newline,
            LocalEchoStep::Skip(next) => EchoStep::Skip(next as int),
            LocalEchoStep::Incomplete => EchoStep::Incomplete,
        }
    }
}

/// The first byte from `i` on that ends a key sequence.
pub open spec fn key_end(s: Seq<u8>, i: int) -> int
    decreases s.len() - i,
{
    if i < 0 || i >= s.len() || 0x40 <= s[i] <= 0x7e {
        i
    } else {
        key_end(s, i + 1)
    }
}

/// What the escape at `i` shows: nothing. A bare escape is one byte, `ESC [`
/// runs to its final byte.
pub open spec fn escape_step(s: Seq<u8>, i: int) -> EchoStep {
    if i + 1 >= s.len() {
        EchoStep::Incomplete
    } else if s[i + 1] != 0x5b {
        EchoStep::Skip(i + 1)
    } else if key_end(s, i + 2) >= s.len() {
        EchoStep::Incomplete
    } else {
        EchoStep::Skip(key_end(s, i + 2) + 1)
    }
}

/// What the key at `i` shows.
pub open spec fn echo_step(s: Seq<u8>, i: int) -> EchoStep {
    if s[i] == 0x08 || s[i] == 0x7f {
        EchoStep::Backspace
    } else if s[i] == 0x0d || s[i] == 0x0a {
        EchoStep::Newline
    } else if s[i] == 0x1b {
        escape_step(s, i)
    } else if s[i] < 0x20 {
        EchoStep::Skip(i + 1)
    } else {
        EchoStep::Echo(s[i])
    }
}

proof fn lemma_key_end(s: Seq<u8>, i: int)
    requires
        0 <= i <= s.len(),
    ensures
        i <= key_end(s, i) <= s.len(),
    decreases s.len() - i,
{
    if i < s.len() && !(0x40 <= s[i] <= 0x7e) {
        lemma_key_end(s, i + 1);
    }
}

proof fn lemma_echo_step(s: Seq<u8>, i: int)
    requires
        0 <= i < s.len(),
    ensures
        echo_step(s, i) matches EchoStep::Skip(next) ==> i < next <= s.len(),
{
    if i + 1 < s.len() {
        lemma_key_end(s, i + 2);
    }
}

/// What the keys from `i` on show, and what of them waits for more input.
pub open spec fn echoed_from(s: Seq<u8>, i: int) -> (Seq<u8>, Seq<u8>)
    decreases s.len() - i,
{
    if i < 0 || i >= s.len() {
        (Seq::empty(), Seq::empty())
    } else {
        match echo_step(s, i) {
            EchoStep::Echo(byte) => (
                seq![byte] + echoed_from(s, i + 1).0,
                echoed_from(s, i + 1).1,
            ),
            EchoStep::Backspace => (
                seq![0x08u8, 0x20, 0x08] + echoed_from(s, i + 1).0,
                echoed_from(s, i + 1).1,
            ),
            EchoStep::Newline => (
                seq![0x0du8, 0x0a] + echoed_from(s, i + 1).0,
                echoed_from(s, i + 1).1,
            ),
            EchoStep::Skip(next) => if i < next {
                echoed_from(s, next)
            } else {
                (Seq::empty(), Seq::empty())
            },
            EchoStep::Incomplete => (Seq::empty(), s.subrange(i, s.len() as int)),
        }
    }
}

proof fn lemma_key_end_moved(p: Seq<u8>, t: Seq<u8>, i: int)
    requires
        0 <= i,
    ensures
        key_end(p + t, p.len() + i) == p.len() + key_end(t, i),
    decreases t.len() - i,
{
    if i < t.len() {
        assert((p + t)[p.len() + i] == t[i]);
        lemma_key_end_moved(p, t, i + 1);
    }
}

/// Keys show the same whatever was typed before them.
proof fn lemma_echoed_moved(p: Seq<u8>, t: Seq<u8>, i: int)
    requires
        0 <= i,
    ensures
        echoed_from(p + t, p.len() + i) == echoed_from(t, i),
    decreases t.len() - i,
{
    let s = p + t;
    let n = p.len() as int;
    if i < t.len() {
        lemma_echo_step(t, i);
        assert(s[n + i] == t[i]);
        if i + 1 < t.len() {
            assert(s[n + (i + 1)] == t[i + 1]);
            lemma_key_end_moved(p, t, i + 2);
            assert(n + (i + 2) == n + i + 2);
        }
        match echo_step(t, i) {
            EchoStep::Skip(next) => lemma_echoed_moved(p, t, next),
            EchoStep::Incomplete => assert(s.subrange(n + i, s.len() as int) =~= t.subrange(
                i,
                t.len() as int,
            )),
            _ => lemma_echoed_moved(p, t, i + 1),
        }
    }
}

proof fn lemma_key_end_before(a: Seq<u8>, b: Seq<u8>, i: int)
    requires
        0 <= i,
        key_end(a, i) < a.len(),
    ensures
        key_end(a + b, i) == key_end(a, i),
    decreases a.len() - i,
{
    if i < a.len() {
        assert((a + b)[i] == a[i]);
        if !(0x40 <= a[i] <= 0x7e) {
            lemma_key_end_before(a, b, i + 1);
        }
    }
}

proof fn lemma_echoed_on(a: Seq<u8>, b: Seq<u8>, i: int)
    requires
        0 <= i <= a.len(),
    ensures
        ({
            let (shown, kept) = echoed_from(a, i);
            let (more, left) = echoed_from(kept + b, 0);
            echoed_from(a + b, i) == (shown + more, left)
        }),
    decreases a.len() - i,
{
    let s = a + b;
    let (shown, kept) = echoed_from(a, i);
    let (more, left) = echoed_from(kept + b, 0);
    if i == a.len() {
        assert(kept + b =~= b);
        lemma_echoed_moved(a, b, 0);
        assert(shown + more =~= more);
    } else {
        lemma_echo_step(a, i);
        assert(s[i] == a[i]);
        assert(i + 1 < a.len() ==> s[i + 1] == a[i + 1]);
        if let EchoStep::Incomplete = echo_step(a, i) {
            let head = a.subrange(0, i);
            assert(head + (kept + b) =~= s);
            lemma_echoed_moved(head, kept + b, 0);
            assert(shown + more =~= more);
        } else {
            if i + 1 < a.len() && a[i] == 0x1b && a[i + 1] == 0x5b {
                lemma_key_end_before(a, b, i + 2);
            }
            match echo_step(a, i) {
                EchoStep::Skip(next) => lemma_echoed_on(a, b, next),
                EchoStep::Echo(byte) => {
                    lemma_echoed_on(a, b, i + 1);
                    assert(shown + more =~= seq![byte] + (echoed_from(a, i + 1).0 + more));
                },
                EchoStep::Backspace => {
                    lemma_echoed_on(a, b, i + 1);
                    assert(shown + more =~= seq![0x08u8, 0x20, 0x08] + (echoed_from(a, i + 1).0
                        + more));
                },
                EchoStep::Newline => {
                    lemma_echoed_on(a, b, i + 1);
                    assert(shown + more =~= seq![0x0du8, 0x0a] + (echoed_from(a, i + 1).0
                        + more));
                },
                EchoStep::Incomplete => {},
            }
        }
    }
}

/// Typed input shows the same wherever reads cut it: what the first part shows
/// and what the second shows behind what waited is what both show together,
/// and the same waits in the end.
pub proof fn typing_may_be_cut_anywhere(first: Seq<u8>, second: Seq<u8>)
    ensures
        ({
            let (shown, kept) = echoed_from(first, 0);
            let (more, left) = echoed_from(kept + second, 0);
            echoed_from(first + second, 0) == (shown + more, left)
        }),
{
    lemma_echoed_on(first, second, 0);
}

fn local_echo_escape_step(input: &[u8], idx: usize) -> (r: LocalEchoStep)
    requires
        idx < input@.len(),
    ensures
        r@ == escape_step(input@, idx as int),
{
    let len = input.len();
    if idx + 1 >= len {
        return LocalEchoStep::Incomplete;
    }
    if input[idx + 1] != 0x5b {
        return LocalEchoStep::Skip(idx + 1);
    }
    let mut end: usize = idx + 2;
    while end < len && !(0x40 <= input[end] && input[end] <= 0x7e)
        invariant
            len == input@.len(),
            idx + 2 <= end <= len,
            key_end(input@, idx + 2) == key_end(input@, end as int),
        decreases len - end,
    {
        end = end + 1;
    }
    if end >= len {
        LocalEchoStep::Incomplete
    } else {
        LocalEchoStep::Skip(end + 1)
    }
}

/// What the key at `idx` shows.
pub fn local_echo_step(input: &[u8], idx: usize) -> (r: LocalEchoStep)
    requires
        idx < input@.len(),
    ensures
        r@ == echo_step(input@, idx as int),
{
    let byte = input[idx];
    if byte == 0x08 || byte == 0x7f {
        LocalEchoStep::Backspace
    } else if byte == 0x0d || byte == 0x0a {
        LocalEchoStep::Newline
    } else if byte == 0x1b {
        local_echo_escape_step(input, idx)
    } else if byte < 0x20 {
        LocalEchoStep::Skip(idx + 1)
    } else {
        LocalEchoStep::Echo(byte)
    }
}

/// The keys of which only the beginning has been read.
#[derive(Clone, Debug)]
pub struct LocalEchoState {
    pending: Vec<u8>,
}

impl View for LocalEchoState {
    type V = Seq<u8>;

    closed spec fn view(&self) -> Seq<u8> {
        self.pending@
    }
}

impl Default for LocalEchoState {
    fn default() -> (r: Self)
        ensures
            r@ == Seq::<u8>::empty(),
    {
        LocalEchoState { pending: Vec::new() }
    }
}

impl LocalEchoState {
    /// The bytes to show for the keys in `input`.
    pub fn push(&mut self, input: &[u8]) -> (r: Vec<u8>)
        ensures
            (r@, final(self)@) == echoed_from(old(self)@ + input@, 0),
    {
        let mut bytes: Vec<u8> = Vec::new();
        std::mem::swap(&mut bytes, &mut self.pending);
        push_all(&mut bytes, input);
        let ghost s = bytes@;
        let len = bytes.len();
        let mut output: Vec<u8> = Vec::new();
        let mut idx: usize = 0;
        assert(output@ + echoed_from(s, 0).0 =~= echoed_from(s, 0).0);
        while idx < len
            invariant
                s == bytes@,
                s == old(self)@ + input@,
                len == s.len(),
                idx <= len,
                self.pending@ =~= Seq::<u8>::empty(),
                output@ + echoed_from(s, idx as int).0 == echoed_from(s, 0).0,
                echoed_from(s, idx as int).1 == echoed_from(s, 0).1,
            decreases len - idx,
        {
            let ghost shown = output@;
            proof {
                lemma_echo_step(s, idx as int);
            }
            match local_echo_step(bytes.as_slice(), idx) {
                LocalEchoStep::Echo(byte) => {
                    output.push(byte);
                    idx = idx + 1;
                    assert(output@ + echoed_from(s, idx as int).0 =~= shown + (seq![byte]
                        + echoed_from(s, idx as int).0));
                },
                LocalEchoStep::Backspace => {
                    output.push(0x08);
                    output.push(0x20);
                    output.push(0x08);
                    idx = idx + 1;
                    assert(output@ + echoed_from(s, idx as int).0 =~= shown + (seq![
                        0x08u8,
                        0x20,
                        0x08,
                    ] + echoed_from(s, idx as int).0));
                },
                LocalEchoStep::Newline => {
                    output.push(0x0d);
                    output.push(0x0a);
                    idx = idx + 1;
                    assert(output@ + echoed_from(s, idx as int).0 =~= shown + (seq![0x0du8, 0x0a]
                        + echoed_from(s, idx as int).0));
                },
                LocalEchoStep::Skip(next) => {
                    idx = next;
                },
                LocalEchoStep::Incomplete => {
                    self.pending = copy_range(bytes.as_slice(), idx, len);
                    assert(output@ =~= shown + Seq::<u8>::empty());
                    return output;
                },
            }
        }
        assert(output@ =~= output@ + Seq::<u8>::empty());
        output
    }
}

/// The bytes to show for `input` when nothing came before it.
pub fn local_echo_bytes(input: &[u8]) -> (r: Vec<u8>)
    ensures
        r@ == echoed_from(input@, 0).0,
{
    let mut state = LocalEchoState::default();
    let echo = state.push(input);
    assert(Seq::<u8>::empty() + input@ =~= input@);
    echo
}

/// The bytes that submit or give up the line being typed: the two line
/// breaks, Ctrl-C, Ctrl-D, Ctrl-U, Ctrl-Z and Ctrl-\.
pub open spec fn leaves_line(b: u8) -> bool {
    b == 0x0d || b == 0x0a || b == 0x03 || b == 0x04 || b == 0x15 || b == 0x1a || b == 0x1c
}

/// Where the line being typed begins: behind the last byte before `end` that
/// leaves a line.
pub open spec fn open_line_start(s: Seq<u8>, end: int) -> int
    decreases end,
{
    if end <= 0 {
        0
    } else if leaves_line(s[end - 1]) {
        end
    } else {
        open_line_start(s, end - 1)
    }
}

/// The end of `s`, at most [`RECENT_INPUT_WINDOW`] bytes of it.
pub open spec fn window_of(s: Seq<u8>) -> Seq<u8> {
    if s.len() > RECENT_INPUT_WINDOW {
        s.subrange(s.len() - RECENT_INPUT_WINDOW, s.len() as int)
    } else {
        s
    }
}

/// What is remembered of the typed bytes `s`.
pub open spec fn remembered(s: Seq<u8>) -> Seq<u8> {
    window_of(s.subrange(open_line_start(s, s.len() as int), s.len() as int))
}

proof fn lemma_open_line_start(s: Seq<u8>, end: int)
    requires
        0 <= end <= s.len(),
    ensures
        0 <= open_line_start(s, end) <= end,
        forall|k: int| open_line_start(s, end) <= k < end ==> !leaves_line(#[trigger] s[k]),
        open_line_start(s, end) > 0 ==> leaves_line(s[open_line_start(s, end) - 1]),
    decreases end,
{
    if end > 0 && !leaves_line(s[end - 1]) {
        lemma_open_line_start(s, end - 1);
    }
}

/// Only the line being typed is remembered, at most a window of it, and
/// always its last bytes.
pub proof fn remembers_only_the_open_line(s: Seq<u8>)
    ensures
        remembered(s).len() <= RECENT_INPUT_WINDOW,
        ends_with(s, remembered(s)),
        forall|k: int| 0 <= k < remembered(s).len() ==> !leaves_line(#[trigger] remembered(s)[k]),
{
    lemma_open_line_start(s, s.len() as int);
    assert(s.subrange(s.len() - remembered(s).len(), s.len() as int) =~= remembered(s));
}

fn is_line_break(byte: u8) -> (r: bool)
    ensures
        r == leaves_line(byte),
{
    byte == 0x0d || byte == 0x0a || byte == 0x03 || byte == 0x04 || byte == 0x15 || byte == 0x1a
        || byte == 0x1c
}

/// Remembers typed input: adds `input`, forgets every line but the last, and
/// keeps a bounded window of that.
pub fn record_recent_input(recent: &mut Vec<u8>, input: &[u8])
    ensures
        final(recent)@ == remembered(old(recent)@ + input@),
{
    push_all(recent, input);
    let ghost s = recent@;
    let len = recent.len();
    let mut start: usize = len;
    while start > 0 && !is_line_break(recent[start - 1])
        invariant
            s == recent@,
            s == old(recent)@ + input@,
            len == s.len(),
            start <= len,
            open_line_start(s, len as int) == open_line_start(s, start as int),
        decreases start,
    {
        start = start - 1;
    }
    let from = if len - start > RECENT_INPUT_WINDOW {
        len - RECENT_INPUT_WINDOW
    } else {
        start
    };
    let kept = copy_range(recent.as_slice(), from, len);
    assert(kept@ =~= remembered(s));
    *recent = kept;
}

/// The bytes that a device takes as a request to complete or to explain the
/// command line: tab and the question mark.
pub open spec fn completion_trigger(b: u8) -> bool {
    b == 0x09 || b == 0x3f
}

/// `s` without the completion triggers at its end.
pub open spec fn untriggered(s: Seq<u8>) -> Seq<u8>
    decreases s.len(),
{
    if s.len() > 0 && completion_trigger(s.last()) {
        untriggered(s.drop_last())
    } else {
        s
    }
}

pub fn is_completion_trigger_byte(byte: u8) -> (r: bool)
    ensures
        r == completion_trigger(byte),
{
    byte == 0x09 || byte == 0x3f
}

/// Whether `echo` is the end of what was typed, the completion triggers at
/// its end aside. If it is, the typed bytes are used up.
pub fn consume_echo_suffix(recent_input: &mut Vec<u8>, echo: &[u8]) -> (r: bool)
    ensures
        r == ends_with(untriggered(old(recent_input)@), echo@),
        final(recent_input)@ == (if r {
            Seq::<u8>::empty()
        } else {
            old(recent_input)@
        }),
{
    let ghost s = recent_input@;
    let mut end: usize = recent_input.len();
    assert(s.subrange(0, end as int) =~= s);
    while end > 0 && is_completion_trigger_byte(recent_input[end - 1])
        invariant
            s == recent_input@,
            end <= s.len(),
            untriggered(s) == untriggered(s.subrange(0, end as int)),
        decreases end,
    {
        assert(s.subrange(0, end as int).drop_last() =~= s.subrange(0, end - 1));
        end = end - 1;
    }
    let matched = copy_range(recent_input.as_slice(), 0, end);
    assert(matched@ == untriggered(s));
    if has_suffix(matched.as_slice(), echo) {
        recent_input.clear();
        true
    } else {
        false
    }
}

/// What a nonblocking look at the terminal found: nothing where there is no
/// terminal to look at, else the count that it reported, negative for an
/// error.
pub open spec fn idle(polled: Option<i32>, error_is_idle: bool) -> bool {
    polled matches Some(ready) && (ready == 0 || error_is_idle && ready < 0)
}

pub fn poll_idle(polled: Option<i32>, error_is_idle: bool) -> (r: bool)
    ensures
        r == idle(polled, error_is_idle),
{
    match polled {
        Some(ready) => if error_is_idle {
            ready <= 0
        } else {
            ready == 0
        },
        None => false,
    }
}

/// Why held output is shown now.
#[derive(Clone, Copy, Debug, PartialEq, Eq, Structural)]
pub enum EchoFlush {
    /// It is the echo of what was typed.
    EchoSuffix,
    /// It completes a redrawn command line.
    PromptEcho,
}

impl EchoFlush {
    pub open spec fn text(self) -> Seq<char> {
        match self {
            EchoFlush::EchoSuffix => "echo-suffix"@,
            EchoFlush::PromptEcho => "prompt-echo"@,
        }
    }

    /// The name by which a trace shows it.
    pub fn name(self) -> (r: &'static str)
        ensures
            r@ == self.text(),
    {
        match self {
            EchoFlush::EchoSuffix => "echo-suffix",
            EchoFlush::PromptEcho => "prompt-echo",
        }
    }
}

/// Whether held output is the echo of the typed bytes.
pub open spec fn echo_matches(
    interactive: bool,
    polled: Option<i32>,
    held: Seq<u8>,
    recent: Option<Seq<u8>>,
) -> bool {
    &&& interactive
    &&& held.len() > 0
    &&& recent matches Some(typed)
    &&& idle(polled, true)
    &&& ends_with(untriggered(typed), held)
}

/// Whether, and why, held output is shown now.
pub open spec fn echo_flush(
    interactive: bool,
    polled: Option<i32>,
    polled_again: Option<i32>,
    held: Seq<u8>,
    prompt_echo: bool,
    recent: Option<Seq<u8>>,
) -> Option<EchoFlush> {
    if !interactive || held.len() == 0 {
        None
    } else if echo_matches(interactive, polled, held, recent) {
        Some(EchoFlush::EchoSuffix)
    } else if prompt_echo && idle(polled_again, false) {
        Some(EchoFlush::PromptEcho)
    } else {
        None
    }
}

pub open spec fn typed_view(recent: Option<Vec<u8>>) -> Option<Seq<u8>> {
    match recent {
        Some(typed) => Some(typed@),
        None => None,
    }
}

/// Decides whether held output is shown now. `polled` and `polled_again` are
/// two looks at the terminal, one for each reason. The typed bytes are used
/// up where the output is their echo, and untouched otherwise.
pub fn should_flush_input_echo(
    interactive: bool,
    polled: Option<i32>,
    polled_again: Option<i32>,
    buffered_echo: &[u8],
    buffered_prompt_echo: bool,
    recent_input: &mut Option<Vec<u8>>,
) -> (r: Option<EchoFlush>)
    ensures
        r == echo_flush(
            interactive,
            polled,
            polled_again,
            buffered_echo@,
            buffered_prompt_echo,
            typed_view(*old(recent_input)),
        ),
        typed_view(*final(recent_input)) == (if r == Some(EchoFlush::EchoSuffix) {
            Some(Seq::<u8>::empty())
        } else {
            typed_view(*old(recent_input))
        }),
{
    if !interactive || buffered_echo.len() == 0 {
        return None;
    }
    if poll_idle(polled, true) {
        if let Some(typed) = recent_input.take() {
            let mut typed = typed;
            let matched = consume_echo_suffix(&mut typed, buffered_echo);
            *recent_input = Some(typed);
            if matched {
                return Some(EchoFlush::EchoSuffix);
            }
        }
    }
    if buffered_prompt_echo && poll_idle(polled_again, false) {
        return Some(EchoFlush::PromptEcho);
    }
    None
}

} // verus!
