//! Remote sessions as they show in a terminal: commands that open one, and
//! lines that tell that one ended or did not come about.

use vstd::prelude::*;

use crate::text::{
    char_views, chars_contain, chars_end_with, chars_of, chars_start_with, copy_chars,
    is_whitespace, lines, lowered, same_chars, split_lines, split_words, text_contains,
    text_ends_with, text_starts_with, to_lower_chars, trim, trimmed, whitespace, words,
};

verus! {

/// How a session that a command opened ends.
#[derive(Clone, Copy, Debug, PartialEq, Eq, Structural)]
pub enum ClosePolicy {
    SshLike,
    Telnet,
    Screen,
    Serial,
    Generic,
}

/// What kind of line told that a session ended.
#[derive(Clone, Copy, Debug, PartialEq, Eq, Structural)]
pub enum CloseMarkerKind {
    SshLike,
    Telnet,
    Screen,
    Serial,
    Logout,
}

/// A session with this policy can end with such a line.
pub open spec fn policy_accepts(policy: ClosePolicy, kind: CloseMarkerKind) -> bool {
    policy == ClosePolicy::Generic || kind == CloseMarkerKind::Logout || match policy {
        ClosePolicy::SshLike => kind == CloseMarkerKind::SshLike,
        ClosePolicy::Telnet => kind == CloseMarkerKind::Telnet,
        ClosePolicy::Screen => kind == CloseMarkerKind::Screen,
        ClosePolicy::Serial => kind == CloseMarkerKind::Serial,
        ClosePolicy::Generic => true,
    }
}

impl ClosePolicy {
    pub fn accepts(self, marker: CloseMarkerKind) -> (r: bool)
        ensures
            r == policy_accepts(self, marker),
    {
        marker == CloseMarkerKind::Logout || match self {
            ClosePolicy::SshLike => marker == CloseMarkerKind::SshLike,
            ClosePolicy::Telnet => marker == CloseMarkerKind::Telnet,
            ClosePolicy::Screen => marker == CloseMarkerKind::Screen,
            ClosePolicy::Serial => marker == CloseMarkerKind::Serial,
            ClosePolicy::Generic => true,
        }
    }
}

/// A remote session that a command asks for.
#[derive(Clone, Debug)]
pub struct RemoteAttempt {
    pub policy: ClosePolicy,
    /// The host, in lower case, where the command tells it.
    pub target: Option<Vec<char>>,
}

/// The content of a [`RemoteAttempt`].
pub struct AttemptView {
    pub policy: ClosePolicy,
    pub target: Option<Seq<char>>,
}

pub open spec fn target_view(target: Option<Vec<char>>) -> Option<Seq<char>> {
    match target {
        Some(t) => Some(t@),
        None => None,
    }
}

impl View for RemoteAttempt {
    type V = AttemptView;

    open spec fn view(&self) -> AttemptView {
        AttemptView { policy: self.policy, target: target_view(self.target) }
    }
}

pub open spec fn attempt_view(a: Option<RemoteAttempt>) -> Option<AttemptView> {
    match a {
        Some(a) => Some(a@),
        None => None,
    }
}

pub fn copy_target(target: &Option<Vec<char>>) -> (r: Option<Vec<char>>)
    ensures
        target_view(r) == target_view(*target),
{
    match target {
        Some(t) => Some(copy_chars(t.as_slice(), 0, t.len())),
        None => None,
    }
}

impl RemoteAttempt {
    pub fn duplicate(&self) -> (r: RemoteAttempt)
        ensures
            r@ == self@,
    {
        RemoteAttempt { policy: self.policy, target: copy_target(&self.target) }
    }
}

pub fn copy_attempt(a: &Option<RemoteAttempt>) -> (r: Option<RemoteAttempt>)
    ensures
        attempt_view(r) == attempt_view(*a),
{
    match a {
        Some(a) => Some(a.duplicate()),
        None => None,
    }
}

fn is_text(s: &[char], text: &str) -> (r: bool)
    ensures
        r == (s@ == text@),
{
    same_chars(s, chars_of(text).as_slice())
}

fn starts(s: &[char], text: &str) -> (r: bool)
    ensures
        r == text_starts_with(s@, text@),
{
    chars_start_with(s, chars_of(text).as_slice())
}

fn ends(s: &[char], text: &str) -> (r: bool)
    ensures
        r == text_ends_with(s@, text@),
{
    chars_end_with(s, chars_of(text).as_slice())
}

fn contains(s: &[char], text: &str) -> (r: bool)
    ensures
        r == text_contains(s@, text@),
{
    chars_contain(s, chars_of(text).as_slice())
}

/// Where a word of a command line is quoted.
#[derive(Clone, Copy, Debug, PartialEq, Eq, Structural)]
pub enum Quote {
    Bare,
    Single,
    Double,
}

/// The words of the command line `s[i..]`, where `word` of the current word
/// has been read already. There are none where a quotation or an escape is
/// left open.
pub open spec fn shell_words_from(
    s: Seq<char>,
    i: int,
    quote: Quote,
    word: Seq<char>,
    started: bool,
) -> Option<Seq<Seq<char>>>
    decreases s.len() - i,
{
    if !(0 <= i < s.len()) {
        if quote != Quote::Bare {
            None
        } else if started {
            Some(seq![word])
        } else {
            Some(Seq::empty())
        }
    } else if quote == Quote::Bare && whitespace(s[i]) {
        match shell_words_from(s, i + 1, quote, Seq::empty(), false) {
            Some(rest) => if started {
                Some(seq![word] + rest)
            } else {
                Some(rest)
            },
            None => None,
        }
    } else if quote == Quote::Bare && s[i] == '\'' {
        shell_words_from(s, i + 1, Quote::Single, word, true)
    } else if quote == Quote::Bare && s[i] == '"' {
        shell_words_from(s, i + 1, Quote::Double, word, true)
    } else if quote == Quote::Single && s[i] == '\'' {
        shell_words_from(s, i + 1, Quote::Bare, word, started)
    } else if quote == Quote::Double && s[i] == '"' {
        shell_words_from(s, i + 1, Quote::Bare, word, started)
    } else if quote != Quote::Single && s[i] == '\\' {
        if i + 1 < s.len() {
            shell_words_from(s, i + 2, quote, word.push(s[i + 1]), true)
        } else {
            None
        }
    } else {
        shell_words_from(s, i + 1, quote, word.push(s[i]), true)
    }
}

/// The words of a command line, as a shell divides it.
pub open spec fn shell_words(s: Seq<char>) -> Option<Seq<Seq<char>>> {
    shell_words_from(s, 0, Quote::Bare, Seq::empty(), false)
}

/// Divides a command line into words as a shell does.
pub fn split_shell_words(line: &[char]) -> (r: Option<Vec<Vec<char>>>)
    ensures
        match r {
            Some(found) => shell_words(line@) == Some(char_views(found@)),
            None => shell_words(line@) is None,
        },
{
    let ghost s = line@;
    let len = line.len();
    let mut out: Vec<Vec<char>> = Vec::new();
    let mut word: Vec<char> = Vec::new();
    let mut quote = Quote::Bare;
    let mut started: bool = false;
    let mut i: usize = 0;
    assert(word@ =~= Seq::<char>::empty());
    proof {
        if let Some(rest) = shell_words(s) {
            assert(char_views(out@) + rest =~= rest);
        }
    }
    while i < len
        invariant
            s == line@,
            len == s.len(),
            i <= len,
            !started ==> word@.len() == 0,
            shell_words(s) == match shell_words_from(s, i as int, quote, word@, started) {
                Some(rest) => Some(char_views(out@) + rest),
                None => None,
            },
        decreases len - i,
    {
        let c = line[i];
        if quote == Quote::Bare && is_whitespace(c) {
            let ghost before = char_views(out@);
            let ghost last = word@;
            if started {
                out.push(word);
                assert(char_views(out@) =~= before.push(last));
                word = Vec::new();
                assert(word@ =~= Seq::<char>::empty());
                proof {
                    if let Some(rest) = shell_words_from(
                        s,
                        i + 1,
                        quote,
                        Seq::empty(),
                        false,
                    ) {
                        assert(before + (seq![last] + rest) =~= char_views(out@) + rest);
                    }
                }
                started = false;
            } else {
                assert(word@ =~= Seq::<char>::empty());
            }
            i = i + 1;
        } else if quote == Quote::Bare && c == '\'' {
            quote = Quote::Single;
            started = true;
            i = i + 1;
        } else if quote == Quote::Bare && c == '"' {
            quote = Quote::Double;
            started = true;
            i = i + 1;
        } else if quote == Quote::Single && c == '\'' {
            quote = Quote::Bare;
            i = i + 1;
        } else if quote == Quote::Double && c == '"' {
            quote = Quote::Bare;
            i = i + 1;
        } else if quote != Quote::Single && c == '\\' {
            if i + 1 >= len {
                return None;
            }
            word.push(line[i + 1]);
            started = true;
            i = i + 2;
        } else {
            word.push(c);
            started = true;
            i = i + 1;
        }
    }
    if quote != Quote::Bare {
        return None;
    }
    let ghost before = char_views(out@);
    if started {
        let ghost last = word@;
        out.push(word);
        assert(char_views(out@) =~= before.push(last));
        assert(before + seq![last] =~= char_views(out@));
    } else {
        assert(before + Seq::<Seq<char>>::empty() =~= before);
    }
    Some(out)
}

/// The policy of a command that opens remote sessions.
pub open spec fn policy_of(command: Seq<char>) -> Option<ClosePolicy> {
    if command == "ssh"@ || command == "mosh"@ {
        Some(ClosePolicy::SshLike)
    } else if command == "telnet"@ {
        Some(ClosePolicy::Telnet)
    } else if command == "screen"@ {
        Some(ClosePolicy::Screen)
    } else if command == "cu"@ || command == "minicom"@ || command == "picocom"@ {
        Some(ClosePolicy::Serial)
    } else {
        None
    }
}

/// Short options of `ssh` that take a value.
pub open spec fn ssh_value_flag(c: char) -> bool {
    c == 'B' || c == 'b' || c == 'c' || c == 'D' || c == 'E' || c == 'e' || c == 'F' || c == 'I'
        || c == 'i' || c == 'J' || c == 'L' || c == 'l' || c == 'm' || c == 'O' || c == 'o' || c
        == 'P' || c == 'p' || c == 'Q' || c == 'R' || c == 'S' || c == 'W' || c == 'w'
}

/// The short option `-c` of a command takes a value.
pub open spec fn value_flag(command: Seq<char>, c: char) -> bool {
    if command == "ssh"@ {
        ssh_value_flag(c)
    } else if command == "mosh"@ {
        c == 'p'
    } else if command == "telnet"@ {
        c == 'l'
    } else if command == "screen"@ {
        c == 'c' || c == 'd' || c == 'm' || c == 'S' || c == 'T'
    } else if command == "cu"@ {
        c == 'l' || c == 's'
    } else if command == "minicom"@ {
        c == 'D' || c == 'b' || c == 'c' || c == 't'
    } else if command == "picocom"@ {
        c == 'b'
    } else {
        false
    }
}

/// The long option of a command takes a value.
pub open spec fn value_option(command: Seq<char>, option: Seq<char>) -> bool {
    if command == "mosh"@ {
        option == "--port"@ || option == "--ssh"@
    } else if command == "picocom"@ {
        option == "--baud"@ || option == "--imap"@ || option == "--omap"@ || option == "--emap"@
    } else {
        false
    }
}

/// The first of the combined short options, from `i` on, that takes a value is
/// the last one: then its value is the next word.
pub open spec fn last_takes_value(command: Seq<char>, flags: Seq<char>, i: int) -> bool
    decreases flags.len() - i,
{
    if !(0 <= i < flags.len()) {
        false
    } else if value_flag(command, flags[i]) {
        i == flags.len() - 1
    } else {
        last_takes_value(command, flags, i + 1)
    }
}

/// The value of the option `word` is the next word.
pub open spec fn value_follows(command: Seq<char>, word: Seq<char>) -> bool {
    if value_option(command, word) {
        true
    } else if word.len() < 2 || word[0] != '-' || word[1] == '-' {
        false
    } else {
        last_takes_value(command, word.skip(1), 0)
    }
}

/// The word is meant as it stands, with nothing for the shell to replace.
pub open spec fn literal_target(word: Seq<char>) -> bool {
    &&& !(word.len() > 0 && word[0] == '~')
    &&& forall|k: int| 0 <= k < word.len() ==> !shell_char(#[trigger] word[k])
}

pub open spec fn shell_char(c: char) -> bool {
    c == '$' || c == '`' || c == '*' || c == '?' || c == '[' || c == ']'
}

/// Offset behind the last `@` before `end`.
pub open spec fn after_at(s: Seq<char>, end: int) -> int
    decreases end,
{
    if !(0 < end <= s.len()) {
        0
    } else if s[end - 1] == '@' {
        end
    } else {
        after_at(s, end - 1)
    }
}

pub open spec fn bracket(c: char) -> bool {
    c == '[' || c == ']'
}

/// First offset at or behind `i` that holds no square bracket.
pub open spec fn skip_brackets(s: Seq<char>, i: int) -> int
    decreases s.len() - i,
{
    if 0 <= i < s.len() && bracket(s[i]) {
        skip_brackets(s, i + 1)
    } else {
        i
    }
}

/// Offset behind the last character before `end` that is no square bracket.
pub open spec fn brackets_start(s: Seq<char>, end: int) -> int
    decreases end,
{
    if 0 < end <= s.len() && bracket(s[end - 1]) {
        brackets_start(s, end - 1)
    } else {
        end
    }
}

/// `s` without square brackets at its start and end.
pub open spec fn without_brackets(s: Seq<char>) -> Seq<char> {
    if skip_brackets(s, 0) >= s.len() {
        Seq::empty()
    } else {
        s.subrange(skip_brackets(s, 0), brackets_start(s, s.len() as int))
    }
}

/// The host of a target: without a user, without brackets, in lower case.
pub open spec fn host_of(target: Seq<char>) -> Seq<char> {
    lowered(without_brackets(target.skip(after_at(target, target.len() as int))))
}

/// The target that the words of a command name, from word `i` on. `skip` tells
/// that the word is the value of an option, `ended` that options are over.
pub open spec fn target_from(
    command: Seq<char>,
    ws: Seq<Seq<char>>,
    i: int,
    skip: bool,
    ended: bool,
) -> Option<Seq<char>>
    decreases ws.len() - i,
{
    if !(0 <= i < ws.len()) {
        None
    } else if skip {
        target_from(command, ws, i + 1, false, ended)
    } else if !ended && ws[i] == "--"@ {
        target_from(command, ws, i + 1, false, true)
    } else if !ended && ws[i].len() > 0 && ws[i][0] == '-' {
        target_from(command, ws, i + 1, value_follows(command, ws[i]), ended)
    } else if literal_target(ws[i]) {
        Some(host_of(ws[i]))
    } else {
        None
    }
}

/// The command of a line: its first word as the shell takes it, or up to the
/// first blank where the shell would wait for more.
pub open spec fn command_of(line: Seq<char>) -> Option<Seq<char>> {
    match shell_words(line) {
        Some(ws) => if ws.len() > 0 {
            Some(lowered(ws[0]))
        } else if words(line).len() > 0 {
            Some(lowered(words(line)[0]))
        } else {
            None
        },
        None => if words(line).len() > 0 {
            Some(lowered(words(line)[0]))
        } else {
            None
        },
    }
}

/// The remote session that a command line asks for, if it does.
pub open spec fn attempt_of(line: Seq<char>) -> Option<AttemptView> {
    match command_of(line) {
        Some(command) => match policy_of(command) {
            Some(policy) => Some(
                AttemptView {
                    policy,
                    target: match shell_words(line) {
                        Some(ws) => target_from(command, ws, 1, false, false),
                        None => None,
                    },
                },
            ),
            None => None,
        },
        None => None,
    }
}

fn policy_for(command: &[char]) -> (r: Option<ClosePolicy>)
    ensures
        r == policy_of(command@),
{
    if is_text(command, "ssh") || is_text(command, "mosh") {
        Some(ClosePolicy::SshLike)
    } else if is_text(command, "telnet") {
        Some(ClosePolicy::Telnet)
    } else if is_text(command, "screen") {
        Some(ClosePolicy::Screen)
    } else if is_text(command, "cu") || is_text(command, "minicom") || is_text(command, "picocom") {
        Some(ClosePolicy::Serial)
    } else {
        None
    }
}

fn is_ssh_value_flag(c: char) -> (r: bool)
    ensures
        r == ssh_value_flag(c),
{
    c == 'B' || c == 'b' || c == 'c' || c == 'D' || c == 'E' || c == 'e' || c == 'F' || c == 'I'
        || c == 'i' || c == 'J' || c == 'L' || c == 'l' || c == 'm' || c == 'O' || c == 'o' || c
        == 'P' || c == 'p' || c == 'Q' || c == 'R' || c == 'S' || c == 'W' || c == 'w'
}

fn is_value_flag(command: &[char], c: char) -> (r: bool)
    ensures
        r == value_flag(command@, c),
{
    if is_text(command, "ssh") {
        is_ssh_value_flag(c)
    } else if is_text(command, "mosh") {
        c == 'p'
    } else if is_text(command, "telnet") {
        c == 'l'
    } else if is_text(command, "screen") {
        c == 'c' || c == 'd' || c == 'm' || c == 'S' || c == 'T'
    } else if is_text(command, "cu") {
        c == 'l' || c == 's'
    } else if is_text(command, "minicom") {
        c == 'D' || c == 'b' || c == 'c' || c == 't'
    } else if is_text(command, "picocom") {
        c == 'b'
    } else {
        false
    }
}

fn is_value_option(command: &[char], option: &[char]) -> (r: bool)
    ensures
        r == value_option(command@, option@),
{
    if is_text(command, "mosh") {
        is_text(option, "--port") || is_text(option, "--ssh")
    } else if is_text(command, "picocom") {
        is_text(option, "--baud") || is_text(option, "--imap") || is_text(option, "--omap")
            || is_text(option, "--emap")
    } else {
        false
    }
}

/// Whether the value of an option is the next word.
pub fn remote_option_takes_value(command: &[char], option: &[char]) -> (r: bool)
    ensures
        r == value_follows(command@, option@),
{
    if is_value_option(command, option) {
        return true;
    }
    let len = option.len();
    if len < 2 || option[0] != '-' || option[1] == '-' {
        return false;
    }
    let ghost flags = option@.skip(1);
    let mut i: usize = 1;
    while i < len
        invariant
            1 <= i <= len,
            len == option@.len(),
            flags == option@.skip(1),
            !value_option(command@, option@),
            len >= 2 && option@[0] == '-' && option@[1] != '-',
            last_takes_value(command@, flags, 0) == last_takes_value(command@, flags, i - 1),
        decreases len - i,
    {
        assert(flags[i - 1] == option@[i as int]);
        if is_value_flag(command, option[i]) {
            return i == len - 1;
        }
        i = i + 1;
    }
    false
}

fn is_literal_remote_target(word: &[char]) -> (r: bool)
    ensures
        r == literal_target(word@),
{
    if word.len() > 0 && word[0] == '~' {
        return false;
    }
    let mut k: usize = 0;
    while k < word.len()
        invariant
            k <= word@.len(),
            !(word@.len() > 0 && word@[0] == '~'),
            forall|j: int| 0 <= j < k ==> !shell_char(#[trigger] word@[j]),
        decreases word@.len() - k,
    {
        let c = word[k];
        if c == '$' || c == '`' || c == '*' || c == '?' || c == '[' || c == ']' {
            assert(shell_char(word@[k as int]));
            return false;
        }
        k = k + 1;
    }
    true
}

proof fn lemma_skip_brackets(s: Seq<char>, i: int)
    requires
        0 <= i <= s.len(),
    ensures
        i <= skip_brackets(s, i) <= s.len(),
        skip_brackets(s, i) < s.len() ==> !bracket(s[skip_brackets(s, i)]),
    decreases s.len() - i,
{
    if i < s.len() && bracket(s[i]) {
        lemma_skip_brackets(s, i + 1);
    }
}

proof fn lemma_brackets_start(s: Seq<char>, end: int)
    requires
        0 <= end <= s.len(),
    ensures
        0 <= brackets_start(s, end) <= end,
        forall|k: int| brackets_start(s, end) <= k < end ==> bracket(#[trigger] s[k]),
    decreases end,
{
    if 0 < end && bracket(s[end - 1]) {
        lemma_brackets_start(s, end - 1);
    }
}

/// The host of a target.
pub fn normalize_remote_target(target: &[char]) -> (r: Vec<char>)
    ensures
        r@ == host_of(target@),
{
    let mut at: usize = target.len();
    while at > 0 && target[at - 1] != '@'
        invariant
            at <= target@.len(),
            after_at(target@, target@.len() as int) == after_at(target@, at as int),
        decreases at,
    {
        at = at - 1;
    }
    let host = vstd::slice::slice_subrange(target, at, target.len());
    assert(host@ =~= target@.skip(at as int));
    let ghost h = host@;
    proof {
        lemma_skip_brackets(h, 0);
        lemma_brackets_start(h, h.len() as int);
    }
    let mut start: usize = 0;
    while start < host.len() && (host[start] == '[' || host[start] == ']')
        invariant
            start <= host@.len(),
            h == host@,
            skip_brackets(h, 0) == skip_brackets(h, start as int),
        decreases host@.len() - start,
    {
        start = start + 1;
    }
    if start >= host.len() {
        let none: Vec<char> = Vec::new();
        assert(none@ =~= lowered(Seq::<char>::empty()));
        return none;
    }
    let mut end: usize = host.len();
    while end > 0 && (host[end - 1] == '[' || host[end - 1] == ']')
        invariant
            end <= host@.len(),
            h == host@,
            brackets_start(h, h.len() as int) == brackets_start(h, end as int),
        decreases end,
    {
        end = end - 1;
    }
    assert(start < end) by {
        if end <= start {
            assert(bracket(h[start as int]));
        }
    }
    to_lower_chars(vstd::slice::slice_subrange(host, start, end))
}

fn find_target(command: &[char], found: &Vec<Vec<char>>) -> (r: Option<Vec<char>>)
    requires
        found@.len() > 0,
    ensures
        target_view(r) == target_from(command@, char_views(found@), 1, false, false),
{
    let ghost ws = char_views(found@);
    let mut i: usize = 1;
    let mut skip: bool = false;
    let mut ended: bool = false;
    while i < found.len()
        invariant
            1 <= i <= found@.len(),
            ws == char_views(found@),
            target_from(command@, ws, 1, false, false) == target_from(
                command@,
                ws,
                i as int,
                skip,
                ended,
            ),
        decreases found@.len() - i,
    {
        let word = found[i].as_slice();
        assert(ws[i as int] == word@);
        if skip {
            skip = false;
        } else if !ended && is_text(word, "--") {
            ended = true;
        } else if !ended && word.len() > 0 && word[0] == '-' {
            skip = remote_option_takes_value(command, word);
        } else if is_literal_remote_target(word) {
            return Some(normalize_remote_target(word));
        } else {
            return None;
        }
        i = i + 1;
    }
    None
}

/// The remote session that a command line asks for, if it does.
pub fn remote_attempt(line: &[char]) -> (r: Option<RemoteAttempt>)
    ensures
        attempt_view(r) == attempt_of(line@),
{
    let found = split_shell_words(line);
    let blanks = split_words(line);
    assert(char_views(blanks@).len() == blanks@.len());
    assert(blanks@.len() > 0 ==> words(line@)[0] == blanks@[0]@);
    match found {
        Some(ws) => {
            assert(char_views(ws@).len() == ws@.len());
            if ws.len() > 0 {
                assert(char_views(ws@)[0] == ws@[0]@);
                let command = to_lower_chars(ws[0].as_slice());
                match policy_for(command.as_slice()) {
                    Some(policy) => Some(
                        RemoteAttempt { policy, target: find_target(command.as_slice(), &ws) },
                    ),
                    None => None,
                }
            } else if blanks.len() > 0 {
                let command = to_lower_chars(blanks[0].as_slice());
                match policy_for(command.as_slice()) {
                    Some(policy) => Some(RemoteAttempt { policy, target: None }),
                    None => None,
                }
            } else {
                None
            }
        },
        None => {
            if blanks.len() > 0 {
                let command = to_lower_chars(blanks[0].as_slice());
                match policy_for(command.as_slice()) {
                    Some(policy) => Some(RemoteAttempt { policy, target: None }),
                    None => None,
                }
            } else {
                None
            }
        },
    }
}

/// A line that tells that a session ended.
#[derive(Clone, Debug)]
pub struct ObservedCloseMarker {
    pub kind: CloseMarkerKind,
    pub target: Option<Vec<char>>,
}

/// The content of an [`ObservedCloseMarker`].
pub struct MarkerView {
    pub kind: CloseMarkerKind,
    pub target: Option<Seq<char>>,
}

impl View for ObservedCloseMarker {
    type V = MarkerView;

    open spec fn view(&self) -> MarkerView {
        MarkerView { kind: self.kind, target: target_view(self.target) }
    }
}

pub open spec fn marker_views(markers: Seq<ObservedCloseMarker>) -> Seq<MarkerView> {
    markers.map_values(|m: ObservedCloseMarker| m@)
}

/// `s` between a prefix and a suffix that it has.
pub open spec fn between(s: Seq<char>, prefix: Seq<char>, suffix: Seq<char>) -> Option<Seq<char>> {
    if text_starts_with(s, prefix) && text_ends_with(s.skip(prefix.len() as int), suffix) {
        Some(s.subrange(prefix.len() as int, s.len() - suffix.len()))
    } else {
        None
    }
}

/// The host of a line such as `connection to HOST closed.`.
pub open spec fn closed_host(line: Seq<char>) -> Option<Seq<char>> {
    let open = "connection to "@;
    let found = if between(line, open, " closed by remote host."@) is Some {
        between(line, open, " closed by remote host."@)
    } else if between(line, open, " closed by remote host"@) is Some {
        between(line, open, " closed by remote host"@)
    } else if between(line, open, " closed."@) is Some {
        between(line, open, " closed."@)
    } else {
        between(line, open, " closed"@)
    };
    match found {
        Some(host) => if host.len() > 0 {
            Some(host)
        } else {
            None
        },
        None => None,
    }
}

/// What a line, in lower case and trimmed, tells of the end of a session.
pub open spec fn marker_of(line: Seq<char>) -> Option<MarkerView> {
    if line == "logout"@ {
        Some(MarkerView { kind: CloseMarkerKind::Logout, target: None })
    } else if line == "connection closed"@ || line == "connection closed."@ || line
        == "connection closed by remote host"@ || line == "connection closed by remote host."@ {
        Some(MarkerView { kind: CloseMarkerKind::SshLike, target: None })
    } else if let Some(host) = closed_host(line) {
        Some(MarkerView { kind: CloseMarkerKind::SshLike, target: Some(host_of(host)) })
    } else if line == "connection closed by foreign host"@ || line
        == "connection closed by foreign host."@ {
        Some(MarkerView { kind: CloseMarkerKind::Telnet, target: None })
    } else if line == "[screen is terminating]"@ || (text_starts_with(line, "[detached from "@)
        && text_ends_with(line, "]"@)) {
        Some(MarkerView { kind: CloseMarkerKind::Screen, target: None })
    } else if line == "disconnected"@ || line == "disconnected."@ || line == "leaving minicom.."@
        || line == "terminating..."@ || line == "thanks for using picocom"@ {
        Some(MarkerView { kind: CloseMarkerKind::Serial, target: None })
    } else {
        None
    }
}

/// What the lines tell of the end of sessions.
pub open spec fn markers_of(ls: Seq<Seq<char>>) -> Seq<MarkerView>
    decreases ls.len(),
{
    if ls.len() == 0 {
        Seq::empty()
    } else {
        let before = markers_of(ls.drop_last());
        match marker_of(trimmed(ls.last())) {
            Some(m) => before.push(m),
            None => before,
        }
    }
}

fn strip_between(s: &[char], prefix: &str, suffix: &str) -> (r: Option<Vec<char>>)
    ensures
        target_view(r) == between(s@, prefix@, suffix@),
{
    let open = chars_of(prefix);
    let close = chars_of(suffix);
    if !chars_start_with(s, open.as_slice()) {
        return None;
    }
    let rest = vstd::slice::slice_subrange(s, open.len(), s.len());
    assert(rest@ =~= s@.skip(prefix@.len() as int));
    if !chars_end_with(rest, close.as_slice()) {
        return None;
    }
    Some(copy_chars(s, open.len(), s.len() - close.len()))
}

/// The host of a line that tells the end of an `ssh` session.
pub fn ssh_close_target(line: &[char]) -> (r: Option<Vec<char>>)
    ensures
        target_view(r) == closed_host(line@),
{
    let open = "connection to ";
    let found = match strip_between(line, open, " closed by remote host.") {
        Some(host) => Some(host),
        None => match strip_between(line, open, " closed by remote host") {
            Some(host) => Some(host),
            None => match strip_between(line, open, " closed.") {
                Some(host) => Some(host),
                None => strip_between(line, open, " closed"),
            },
        },
    };
    match found {
        Some(host) => if host.len() > 0 {
            Some(host)
        } else {
            None
        },
        None => None,
    }
}

pub open spec fn marker_view(m: Option<ObservedCloseMarker>) -> Option<MarkerView> {
    match m {
        Some(m) => Some(m@),
        None => None,
    }
}

fn observed_close_marker(line: &[char]) -> (r: Option<ObservedCloseMarker>)
    ensures
        marker_view(r) == marker_of(line@),
{
    if is_text(line, "logout") {
        return Some(ObservedCloseMarker { kind: CloseMarkerKind::Logout, target: None });
    }
    if is_text(line, "connection closed") || is_text(line, "connection closed.") || is_text(
        line,
        "connection closed by remote host",
    ) || is_text(line, "connection closed by remote host.") {
        return Some(ObservedCloseMarker { kind: CloseMarkerKind::SshLike, target: None });
    }
    if let Some(host) = ssh_close_target(line) {
        return Some(
            ObservedCloseMarker {
                kind: CloseMarkerKind::SshLike,
                target: Some(normalize_remote_target(host.as_slice())),
            },
        );
    }
    if is_text(line, "connection closed by foreign host") || is_text(
        line,
        "connection closed by foreign host.",
    ) {
        return Some(ObservedCloseMarker { kind: CloseMarkerKind::Telnet, target: None });
    }
    if is_text(line, "[screen is terminating]") || (starts(line, "[detached from ") && ends(
        line,
        "]",
    )) {
        return Some(ObservedCloseMarker { kind: CloseMarkerKind::Screen, target: None });
    }
    if is_text(line, "disconnected") || is_text(line, "disconnected.") || is_text(
        line,
        "leaving minicom..",
    ) || is_text(line, "terminating...") || is_text(line, "thanks for using picocom") {
        return Some(ObservedCloseMarker { kind: CloseMarkerKind::Serial, target: None });
    }
    None
}

/// What the lines of a text in lower case tell of the end of sessions.
pub fn observed_close_markers(text: &[char]) -> (r: Vec<ObservedCloseMarker>)
    ensures
        marker_views(r@) == markers_of(lines(text@)),
{
    let found = split_lines(text);
    let ghost all = lines(text@);
    let mut out: Vec<ObservedCloseMarker> = Vec::new();
    let mut i: usize = 0;
    assert(char_views(found@).len() == found@.len());
    assert(all.take(0) =~= Seq::<Seq<char>>::empty());
    assert(marker_views(out@) =~= Seq::<MarkerView>::empty());
    while i < found.len()
        invariant
            i <= found@.len(),
            all == char_views(found@),
            marker_views(out@) == markers_of(all.take(i as int)),
        decreases found@.len() - i,
    {
        assert(all.take(i + 1).drop_last() =~= all.take(i as int));
        assert(all[i as int] == found@[i as int]@);
        let ghost before = marker_views(out@);
        if let Some(m) = observed_close_marker(trim(found[i].as_slice())) {
            let ghost x = m@;
            out.push(m);
            assert(marker_views(out@) =~= before.push(x));
        }
        i = i + 1;
    }
    assert(all.take(i as int) =~= all);
    out
}

/// The line tells the end of a session with this policy and target.
pub open spec fn marker_fits(m: MarkerView, policy: ClosePolicy, target: Option<Seq<char>>) -> bool {
    policy_accepts(policy, m.kind) && match m.target {
        Some(observed) => match target {
            Some(expected) => observed == expected,
            None => true,
        },
        None => true,
    }
}

pub fn close_marker_matches(
    marker: &ObservedCloseMarker,
    policy: ClosePolicy,
    expected_target: &Option<Vec<char>>,
) -> (r: bool)
    ensures
        r == marker_fits(marker@, policy, target_view(*expected_target)),
{
    if !policy.accepts(marker.kind) {
        return false;
    }
    match &marker.target {
        Some(observed) => match expected_target {
            Some(expected) => same_chars(observed.as_slice(), expected.as_slice()),
            None => true,
        },
        None => true,
    }
}

/// One of the lines tells the end of the session.
pub open spec fn some_marker_fits(
    ms: Seq<MarkerView>,
    policy: ClosePolicy,
    target: Option<Seq<char>>,
) -> bool {
    exists|k: int| 0 <= k < ms.len() && marker_fits(#[trigger] ms[k], policy, target)
}

pub fn some_close_marker_matches(
    markers: &Vec<ObservedCloseMarker>,
    policy: ClosePolicy,
    expected_target: &Option<Vec<char>>,
) -> (r: bool)
    ensures
        r == some_marker_fits(marker_views(markers@), policy, target_view(*expected_target)),
{
    let ghost all = marker_views(markers@);
    let mut i: usize = 0;
    while i < markers.len()
        invariant
            i <= markers@.len(),
            all == marker_views(markers@),
            forall|k: int|
                0 <= k < i ==> !marker_fits(
                    #[trigger] all[k],
                    policy,
                    target_view(*expected_target),
                ),
        decreases markers@.len() - i,
    {
        assert(all[i as int] == markers@[i as int]@);
        if close_marker_matches(&markers[i], policy, expected_target) {
            return true;
        }
        i = i + 1;
    }
    false
}

/// The line tells that an `ssh` session did not come about.
pub open spec fn ssh_failure(line: Seq<char>) -> bool {
    ||| text_starts_with(line, "ssh: could not resolve hostname "@)
    ||| (text_starts_with(line, "permission denied ("@) || text_contains(
        line,
        ": permission denied ("@,
    )) && text_ends_with(line, ")."@)
    ||| line == "host key verification failed."@
    ||| line == "warning: remote host identification has changed!"@
    ||| line == "kex_exchange_identification: read: connection reset by peer"@
    ||| line == "kex_exchange_identification: connection reset by peer"@
    ||| text_starts_with(line, "ssh: connect to host "@) && (text_ends_with(
        line,
        "connection refused"@,
    ) || text_ends_with(line, "connection timed out"@) || text_ends_with(
        line,
        "network is unreachable"@,
    ) || text_ends_with(line, "no route to host"@) || text_ends_with(line, "operation timed out"@))
}

/// The line tells that a session with this policy did not come about.
pub open spec fn failure_line(line: Seq<char>, policy: ClosePolicy) -> bool {
    match policy {
        ClosePolicy::SshLike => ssh_failure(line),
        ClosePolicy::Telnet => text_starts_with(line, "telnet: unable to connect to remote host:"@)
            || text_starts_with(line, "telnet: could not resolve "@),
        ClosePolicy::Screen => text_starts_with(line, "cannot open your terminal"@)
            || text_starts_with(line, "cannot exec "@),
        ClosePolicy::Serial => text_starts_with(line, "fatal: cannot open "@) || text_starts_with(
            line,
            "minicom: cannot open "@,
        ) || text_starts_with(line, "cu: open ("@),
        ClosePolicy::Generic => false,
    }
}

/// A line of the text tells that a session did not come about.
pub open spec fn open_failure(text: Seq<char>, policy: ClosePolicy) -> bool {
    exists|k: int|
        0 <= k < lines(text).len() && failure_line(trimmed(#[trigger] lines(text)[k]), policy)
}

fn is_ssh_failure(line: &[char]) -> (r: bool)
    ensures
        r == ssh_failure(line@),
{
    if starts(line, "ssh: could not resolve hostname ") || is_text(
        line,
        "host key verification failed.",
    ) || is_text(line, "warning: remote host identification has changed!") || is_text(
        line,
        "kex_exchange_identification: read: connection reset by peer",
    ) || is_text(line, "kex_exchange_identification: connection reset by peer") {
        return true;
    }
    if (starts(line, "permission denied (") || contains(line, ": permission denied (")) && ends(
        line,
        ").",
    ) {
        return true;
    }
    starts(line, "ssh: connect to host ") && (ends(line, "connection refused") || ends(
        line,
        "connection timed out",
    ) || ends(line, "network is unreachable") || ends(line, "no route to host") || ends(
        line,
        "operation timed out",
    ))
}

fn is_failure_line(line: &[char], policy: ClosePolicy) -> (r: bool)
    ensures
        r == failure_line(line@, policy),
{
    match policy {
        ClosePolicy::SshLike => is_ssh_failure(line),
        ClosePolicy::Telnet => starts(line, "telnet: unable to connect to remote host:") || starts(
            line,
            "telnet: could not resolve ",
        ),
        ClosePolicy::Screen => starts(line, "cannot open your terminal") || starts(
            line,
            "cannot exec ",
        ),
        ClosePolicy::Serial => starts(line, "fatal: cannot open ") || starts(
            line,
            "minicom: cannot open ",
        ) || starts(line, "cu: open ("),
        ClosePolicy::Generic => false,
    }
}

/// Whether the text, in lower case, tells that a session did not come about.
pub fn contains_remote_open_failure(text: &[char], policy: ClosePolicy) -> (r: bool)
    ensures
        r == open_failure(text@, policy),
{
    let found = split_lines(text);
    let ghost all = lines(text@);
    assert(char_views(found@).len() == found@.len());
    let mut i: usize = 0;
    while i < found.len()
        invariant
            i <= found@.len(),
            all == lines(text@),
            all == char_views(found@),
            forall|k: int| 0 <= k < i ==> !failure_line(trimmed(#[trigger] all[k]), policy),
        decreases found@.len() - i,
    {
        assert(all[i as int] == found@[i as int]@);
        if is_failure_line(trim(found[i].as_slice()), policy) {
            return true;
        }
        i = i + 1;
    }
    false
}

} // verus!
