//! Remote logins as they are typed and as they end: the host that a command
//! names is the host that the line at its end names.

use vstd::prelude::*;
use vstd::utf8::{is_ascii_chars, is_ascii_chars_encode_utf8};

use crate::metadata::byte_len;
use crate::profile_runtime::RuntimeModel;
use crate::profiles::ProfileView;
use crate::remote::{
    after_at, attempt_of, between, closed_host, host_of, literal_target, marker_fits, marker_of,
    markers_of, policy_accepts, policy_of, shell_words, shell_words_from, target_from,
    without_brackets, AttemptView, CloseMarkerKind, ClosePolicy, MarkerView, Quote,
};
use crate::text::{
    char_from, char_lower, line_content, lines, lines_from, lowered, skip_space, text_ends_with,
    text_starts_with, trimmed, whitespace,
};
use crate::window::{lines_end, recent, recent_lines};

verus! {

/// Characters of plain names: ASCII letters and digits, underscore, full stop
/// and hyphen.
pub open spec fn plain_char(c: char) -> bool {
    ||| 0x30 <= (c as int) <= 0x39
    ||| 0x41 <= (c as int) <= 0x5a
    ||| 0x61 <= (c as int) <= 0x7a
    ||| c == '_'
    ||| c == '.'
    ||| c == '-'
}

/// A user or a host: plain characters, the first of them no hyphen.
pub open spec fn plain_name(s: Seq<char>) -> bool {
    &&& s.len() > 0
    &&& s[0] != '-'
    &&& forall|k: int| 0 <= k < s.len() ==> plain_char(#[trigger] s[k])
}

/// A character that a shell takes as it stands.
pub open spec fn bare(c: char) -> bool {
    !whitespace(c) && c != '\'' && c != '"' && c != '\\'
}

pub open spec fn bare_word(s: Seq<char>) -> bool {
    s.len() > 0 && forall|k: int| 0 <= k < s.len() ==> bare(#[trigger] s[k])
}

pub proof fn lemma_bare_run(s: Seq<char>, i: int, j: int, word: Seq<char>, started: bool)
    requires
        0 <= i <= j <= s.len(),
        forall|k: int| i <= k < j ==> bare(#[trigger] s[k]),
    ensures
        shell_words_from(s, i, Quote::Bare, word, started) == shell_words_from(
            s,
            j,
            Quote::Bare,
            word + s.subrange(i, j),
            started || i < j,
        ),
    decreases j - i,
{
    if i == j {
        assert(word + s.subrange(i, j) =~= word);
    } else {
        assert(bare(s[i]));
        lemma_bare_run(s, i + 1, j, word.push(s[i]), true);
        assert(word.push(s[i]) + s.subrange(i + 1, j) =~= word + s.subrange(i, j));
    }
}

/// Bare words with blanks between them.
spec fn spaced(ws: Seq<Seq<char>>) -> Seq<char>
    decreases ws.len(),
{
    if ws.len() == 0 {
        Seq::empty()
    } else if ws.len() == 1 {
        ws[0]
    } else {
        ws[0] + seq![' '] + spaced(ws.skip(1))
    }
}

/// The words of a line from `i` on, where bare words stand with blanks between
/// them.
proof fn lemma_spaced(s: Seq<char>, i: int, ws: Seq<Seq<char>>)
    requires
        0 <= i <= s.len(),
        s.skip(i) == spaced(ws),
        forall|k: int| 0 <= k < ws.len() ==> bare_word(#[trigger] ws[k]),
    ensures
        shell_words_from(s, i, Quote::Bare, Seq::empty(), false) == Some(ws),
    decreases ws.len(),
{
    let none = Seq::<char>::empty();
    if ws.len() == 0 {
        assert(s.skip(i).len() == 0);
        assert(ws =~= Seq::<Seq<char>>::empty());
    } else {
        let w = ws[0];
        let j = i + w.len();
        assert(bare_word(w));
        assert(s.skip(i).len() >= w.len());
        assert forall|k: int| i <= k < j implies bare(#[trigger] s[k]) by {
            assert(s.skip(i)[k - i] == w[k - i]);
        }
        assert(s.subrange(i, j) =~= w) by {
            assert forall|k: int| 0 <= k < w.len() implies s.subrange(i, j)[k] == w[k] by {
                assert(s.skip(i)[k] == w[k]);
            }
        }
        lemma_bare_run(s, i, j, none, false);
        assert(none + s.subrange(i, j) =~= w);
        if ws.len() == 1 {
            assert(s.len() == j);
            assert(seq![w] =~= ws);
        } else {
            let rest = ws.skip(1);
            assert(s.skip(i)[w.len() as int] == ' ');
            assert(s[j] == ' ');
            assert(s.skip(j + 1) =~= spaced(rest)) by {
                assert forall|k: int| 0 <= k < spaced(rest).len() implies s.skip(j + 1)[k]
                    == spaced(rest)[k] by {
                    assert(s.skip(i)[w.len() + 1 + k] == spaced(rest)[k]);
                }
            }
            assert forall|k: int| 0 <= k < rest.len() implies bare_word(#[trigger] rest[k]) by {
                assert(rest[k] == ws[k + 1]);
            }
            lemma_spaced(s, j + 1, rest);
            assert(seq![w] + rest =~= ws);
        }
    }
}

pub proof fn lemma_after_at(s: Seq<char>, at: int, end: int)
    requires
        0 <= at <= end <= s.len(),
        at > 0 ==> s[at - 1] == '@',
        forall|k: int| at <= k < end ==> #[trigger] s[k] != '@',
    ensures
        after_at(s, end) == at,
    decreases end,
{
    if end > at {
        lemma_after_at(s, at, end - 1);
    }
}

pub proof fn lemma_no_brackets(s: Seq<char>)
    requires
        s.len() > 0,
        s[0] != '[' && s[0] != ']',
        s.last() != '[' && s.last() != ']',
    ensures
        without_brackets(s) == s,
{
    assert(s.subrange(0, s.len() as int) =~= s);
}

/// The host of a target is what stands behind its last `@`, in lower case.
pub proof fn the_user_is_no_part_of_the_host(user: Seq<char>, host: Seq<char>)
    requires
        plain_name(host),
    ensures
        host_of(user + seq!['@'] + host) == lowered(host),
        host_of(host) == lowered(host),
{
    let t = user + seq!['@'] + host;
    let at = user.len() + 1;
    assert forall|k: int| at <= k < t.len() implies #[trigger] t[k] != '@' by {
        assert(t[k] == host[k - at]);
        assert(plain_char(host[k - at]));
    }
    lemma_after_at(t, at as int, t.len() as int);
    assert(t.skip(at as int) =~= host);
    assert(plain_char(host[0]));
    assert(plain_char(host[host.len() - 1]));
    lemma_no_brackets(host);
    assert forall|k: int| 0 <= k < host.len() implies #[trigger] host[k] != '@' by {
        assert(plain_char(host[k]));
    }
    lemma_after_at(host, 0, host.len() as int);
    assert(host.skip(0) =~= host);
}

pub proof fn lemma_name_is_bare(s: Seq<char>)
    requires
        plain_name(s),
    ensures
        bare_word(s),
        literal_target(s),
{
    assert forall|k: int| 0 <= k < s.len() implies bare(#[trigger] s[k]) by {
        assert(plain_char(s[k]));
    }
    assert(plain_char(s[0]));
    assert forall|k: int| 0 <= k < s.len() implies !crate::remote::shell_char(#[trigger] s[k]) by {
        assert(plain_char(s[k]));
    }
}

pub proof fn lemma_login_is_bare(user: Seq<char>, host: Seq<char>)
    requires
        plain_name(user),
        plain_name(host),
    ensures
        bare_word(user + seq!['@'] + host),
        literal_target(user + seq!['@'] + host),
        (user + seq!['@'] + host)[0] != '-',
{
    let t = user + seq!['@'] + host;
    lemma_name_is_bare(user);
    lemma_name_is_bare(host);
    assert forall|k: int| 0 <= k < t.len() implies bare(#[trigger] t[k]) && !crate::remote::shell_char(
        t[k],
    ) by {
        if k < user.len() {
            assert(t[k] == user[k]);
            assert(bare(user[k]));
        } else if k > user.len() {
            assert(t[k] == host[k - user.len() - 1]);
            assert(bare(host[k - user.len() - 1]));
        }
    }
    assert(t[0] == user[0]);
    assert(plain_char(user[0]));
}

/// The commands that open remote sessions, and how those end: `ssh` and `mosh`
/// alike, and the serial terminals alike.
pub open spec fn opens(command: Seq<char>, policy: ClosePolicy) -> bool {
    ||| command == seq!['s', 's', 'h'] && policy == ClosePolicy::SshLike
    ||| command == seq!['m', 'o', 's', 'h'] && policy == ClosePolicy::SshLike
    ||| command == seq!['t', 'e', 'l', 'n', 'e', 't'] && policy == ClosePolicy::Telnet
    ||| command == seq!['s', 'c', 'r', 'e', 'e', 'n'] && policy == ClosePolicy::Screen
    ||| command == seq!['c', 'u'] && policy == ClosePolicy::Serial
    ||| command == seq!['m', 'i', 'n', 'i', 'c', 'o', 'm'] && policy == ClosePolicy::Serial
    ||| command == seq!['p', 'i', 'c', 'o', 'c', 'o', 'm'] && policy == ClosePolicy::Serial
}

pub proof fn lemma_opens(command: Seq<char>, policy: ClosePolicy)
    requires
        opens(command, policy),
    ensures
        policy_of(command) == Some(policy),
        lowered(command) == command,
        bare_word(command),
{
    reveal_strlit("ssh");
    reveal_strlit("mosh");
    reveal_strlit("telnet");
    reveal_strlit("screen");
    reveal_strlit("cu");
    reveal_strlit("minicom");
    reveal_strlit("picocom");
    assert("ssh"@ =~= seq!['s', 's', 'h']);
    assert("mosh"@ =~= seq!['m', 'o', 's', 'h']);
    assert("telnet"@ =~= seq!['t', 'e', 'l', 'n', 'e', 't']);
    assert("screen"@ =~= seq!['s', 'c', 'r', 'e', 'e', 'n']);
    assert("cu"@ =~= seq!['c', 'u']);
    assert("minicom"@ =~= seq!['m', 'i', 'n', 'i', 'c', 'o', 'm']);
    assert("picocom"@ =~= seq!['p', 'i', 'c', 'o', 'c', 'o', 'm']);
    assert(command.len() <= 7);
    assert(command[0] == 's' || command[0] == 'm' || command[0] == 't' || command[0] == 'c'
        || command[0] == 'p');
    assert("screen"@.len() == 6);
    assert("telnet"@.len() == 6);
    assert(lowered(command) =~= command);
}

pub proof fn lemma_two_words(a: Seq<char>, b: Seq<char>)
    requires
        bare_word(a),
        bare_word(b),
    ensures
        shell_words(a + seq![' '] + b) == Some(seq![a, b]),
{
    let ws = seq![a, b];
    assert(ws.skip(1) =~= seq![b]);
    assert(spaced(seq![b]) == b);
    assert(spaced(ws) =~= a + seq![' '] + b);
    let s = a + seq![' '] + b;
    assert(s.skip(0) =~= s);
    lemma_spaced(s, 0, ws);
}

pub proof fn lemma_more_words(a: Seq<char>, b: Seq<char>, c: Seq<char>, d: Seq<char>)
    requires
        bare_word(a),
        bare_word(b),
        bare_word(c),
        bare_word(d),
    ensures
        shell_words(a + seq![' '] + b + seq![' '] + c) == Some(seq![a, b, c]),
        shell_words(a + seq![' '] + b + seq![' '] + c + seq![' '] + d) == Some(seq![a, b, c, d]),
{
    let ws = seq![a, b, c];
    assert(ws.skip(1) =~= seq![b, c]);
    assert(seq![b, c].skip(1) =~= seq![c]);
    assert(spaced(seq![c]) == c);
    assert(spaced(seq![b, c]) =~= b + seq![' '] + c);
    let s = a + seq![' '] + b + seq![' '] + c;
    assert(spaced(ws) =~= s);
    assert(s.skip(0) =~= s);
    lemma_spaced(s, 0, ws);
    let vs = seq![a, b, c, d];
    assert(vs.skip(1) =~= seq![b, c, d]);
    assert(seq![b, c, d].skip(1) =~= seq![c, d]);
    assert(seq![c, d].skip(1) =~= seq![d]);
    assert(spaced(seq![d]) == d);
    assert(spaced(seq![c, d]) =~= c + seq![' '] + d);
    assert(spaced(seq![b, c, d]) =~= b + seq![' '] + spaced(seq![c, d]));
    let t = a + seq![' '] + b + seq![' '] + c + seq![' '] + d;
    assert(spaced(vs) =~= t);
    assert(t.skip(0) =~= t);
    lemma_spaced(t, 0, vs);
}

/// The word that names the target.
pub proof fn lemma_target_word(command: Seq<char>, ws: Seq<Seq<char>>, i: int, host: Seq<char>)
    requires
        0 <= i < ws.len(),
        ws[i].len() > 0,
        ws[i][0] != '-',
        literal_target(ws[i]),
        host_of(ws[i]) == host,
    ensures
        target_from(command, ws, i, false, false) == Some(host),
{
    reveal_strlit("--");
    assert(ws[i] != "--"@);
}

/// A command line that asks for a remote session asks for the host that it
/// names, with a user in front of it or without.
pub proof fn logins_ask_for_the_host(
    command: Seq<char>,
    policy: ClosePolicy,
    user: Seq<char>,
    host: Seq<char>,
)
    requires
        opens(command, policy),
        plain_name(user),
        plain_name(host),
    ensures
        attempt_of(command + seq![' '] + user + seq!['@'] + host) == Some(
            AttemptView { policy, target: Some(lowered(host)) },
        ),
        attempt_of(command + seq![' '] + host) == Some(
            AttemptView { policy, target: Some(lowered(host)) },
        ),
{
    let login = user + seq!['@'] + host;
    lemma_opens(command, policy);
    lemma_login_is_bare(user, host);
    lemma_name_is_bare(host);
    the_user_is_no_part_of_the_host(user, host);
    lemma_two_words(command, login);
    lemma_two_words(command, host);
    lemma_target_word(command, seq![command, login], 1, lowered(host));
    lemma_target_word(command, seq![command, host], 1, lowered(host));
    assert(command + seq![' '] + user + seq!['@'] + host =~= command + seq![' '] + login);
}

/// Options of `ssh` with a value in the next word.
pub open spec fn ssh_option_with_value(c: char) -> bool {
    c == 'B' || c == 'b' || c == 'c' || c == 'D' || c == 'E' || c == 'e' || c == 'F' || c == 'I'
        || c == 'i' || c == 'J' || c == 'L' || c == 'l' || c == 'm' || c == 'O' || c == 'o' || c
        == 'P' || c == 'p' || c == 'Q' || c == 'R' || c == 'S' || c == 'W' || c == 'w'
}

/// How a session ends: with a line of its own kind or with a logout; one that
/// nobody asked for ends with any of them.
pub proof fn sessions_end_with_lines_of_their_kind(policy: ClosePolicy, kind: CloseMarkerKind)
    ensures
        policy_accepts(policy, CloseMarkerKind::Logout),
        policy_accepts(ClosePolicy::Generic, kind),
        policy_accepts(ClosePolicy::SshLike, kind) <==> kind == CloseMarkerKind::SshLike || kind
            == CloseMarkerKind::Logout,
        policy_accepts(ClosePolicy::Telnet, kind) <==> kind == CloseMarkerKind::Telnet || kind
            == CloseMarkerKind::Logout,
        policy_accepts(ClosePolicy::Screen, kind) <==> kind == CloseMarkerKind::Screen || kind
            == CloseMarkerKind::Logout,
        policy_accepts(ClosePolicy::Serial, kind) <==> kind == CloseMarkerKind::Serial || kind
            == CloseMarkerKind::Logout,
{
}

/// `connection to HOST closed.`
pub open spec fn closing_line(host: Seq<char>) -> Seq<char> {
    seq!['c', 'o', 'n', 'n', 'e', 'c', 't', 'i', 'o', 'n', ' ', 't', 'o', ' '] + host + seq![
        ' ',
        'c',
        'l',
        'o',
        's',
        'e',
        'd',
        '.',
    ]
}

proof fn lemma_lowered_name(host: Seq<char>)
    requires
        plain_name(host),
    ensures
        plain_name(lowered(host)),
        lowered(lowered(host)) == lowered(host),
{
    let h = lowered(host);
    assert forall|k: int| 0 <= k < h.len() implies plain_char(#[trigger] h[k]) by {
        assert(plain_char(host[k]));
        assert(h[k] == char_lower(host[k]));
    }
    assert(plain_char(host[0]));
    assert(lowered(h) =~= h) by {
        assert forall|k: int| 0 <= k < h.len() implies lowered(h)[k] == h[k] by {
            assert(h[k] == char_lower(host[k]));
        }
    }
}

/// The line that ends a session of `ssh` names its host, and ends that session
/// and none with another host.
#[verifier::rlimit(40)]
pub proof fn closing_lines_name_the_host(host: Seq<char>, other: Seq<char>)
    requires
        plain_name(host),
        plain_name(other),
    ensures
        ({
            let told = marker_of(closing_line(lowered(host)));
            &&& told == Some(
                MarkerView { kind: CloseMarkerKind::SshLike, target: Some(lowered(host)) },
            )
            &&& marker_fits(told->Some_0, ClosePolicy::SshLike, Some(lowered(host)))
            &&& marker_fits(told->Some_0, ClosePolicy::SshLike, None)
            &&& lowered(other) != lowered(host) ==> !marker_fits(
                told->Some_0,
                ClosePolicy::SshLike,
                Some(lowered(other)),
            )
            &&& !marker_fits(told->Some_0, ClosePolicy::Telnet, Some(lowered(host)))
        }),
{
    let h = lowered(host);
    let line = closing_line(h);
    lemma_lowered_name(host);
    the_user_is_no_part_of_the_host(Seq::empty(), h);
    reveal_strlit("logout");
    reveal_strlit("connection closed");
    reveal_strlit("connection closed.");
    reveal_strlit("connection closed by remote host");
    reveal_strlit("connection closed by remote host.");
    reveal_strlit("connection to ");
    reveal_strlit(" closed by remote host.");
    reveal_strlit(" closed by remote host");
    reveal_strlit(" closed.");
    let open = "connection to "@;
    let n = line.len() as int;
    assert(line.subrange(0, 14) =~= open);
    assert(line[11] == 't' && line[0] == 'c');
    assert("connection closed"@[11] == 'c');
    let rest = line.skip(14);
    assert(rest =~= h + " closed."@);
    assert(rest.len() == h.len() + 8);
    assert(text_starts_with(line, open));
    // The last word of the line is `closed.`, which the longer endings lack.
    assert(rest.last() == '.');
    assert(rest[rest.len() - 2] == 'd');
    assert(!text_ends_with(rest, " closed by remote host."@)) by {
        let e = " closed by remote host."@;
        if text_ends_with(rest, e) {
            assert(rest.subrange(rest.len() - e.len(), rest.len() as int)[e.len() - 2] == e[e.len()
                - 2]);
            assert(e[e.len() - 2] == 't');
        }
    }
    assert(!text_ends_with(rest, " closed by remote host"@)) by {
        let e = " closed by remote host"@;
        if text_ends_with(rest, e) {
            assert(rest.subrange(rest.len() - e.len(), rest.len() as int)[e.len() - 1] == e[e.len()
                - 1]);
        }
    }
    assert(rest.subrange(h.len() as int, rest.len() as int) =~= " closed."@);
    assert(text_ends_with(rest, " closed."@));
    assert(line.subrange(14, n - 8) =~= h);
    assert(between(line, open, " closed."@) == Some(h));
    assert(closed_host(line) == Some(h));
    assert(line != "logout"@);
    assert(line != "connection closed"@ && line != "connection closed."@);
    assert(line != "connection closed by remote host"@);
    assert(line != "connection closed by remote host."@);
}

/// The bytes that are typed, as text.
pub open spec fn typed_text(bytes: Seq<u8>) -> Seq<char> {
    bytes.map_values(|b: u8| b as char)
}

proof fn lemma_typed_line(m: RuntimeModel, bytes: Seq<u8>)
    requires
        m.escape is Idle,
        m.reliable,
        m.line.len() == 0,
        bytes.len() <= 4096,
        forall|k: int| 0 <= k < bytes.len() ==> 0x20 <= #[trigger] bytes[k] <= 0x7e,
    ensures
        m.after_input(bytes) == (RuntimeModel { line: typed_text(bytes), ..m }),
    decreases bytes.len(),
{
    if bytes.len() == 0 {
        assert(typed_text(bytes) =~= m.line);
    } else {
        let before = bytes.drop_last();
        assert forall|k: int| 0 <= k < before.len() implies 0x20 <= #[trigger] before[k] <= 0x7e by {
            assert(before[k] == bytes[k]);
        }
        lemma_typed_line(m, before);
        let b = bytes[bytes.len() - 1];
        assert(0x20 <= b <= 0x7e);
        assert(typed_text(before).push(b as char) =~= typed_text(bytes));
    }
}

/// A login that is typed and entered at an empty command line is remembered
/// with the host that it names.
pub proof fn typed_logins_are_remembered(
    m: RuntimeModel,
    command: Seq<u8>,
    policy: ClosePolicy,
    user: Seq<u8>,
    host: Seq<u8>,
)
    requires
        m.escape is Idle,
        m.reliable,
        m.line.len() == 0,
        opens(typed_text(command), policy),
        plain_name(typed_text(user)),
        plain_name(typed_text(host)),
        command.len() + user.len() + host.len() + 2 <= 4096,
    ensures
        m.after_input(command + seq![0x20u8] + user + seq![0x40u8] + host + seq![0x0du8]).nesting.pending
            == Some(AttemptView { policy, target: Some(lowered(typed_text(host))) }),
        m.after_input(command + seq![0x20u8] + user + seq![0x40u8] + host + seq![0x0au8]).nesting.pending
            == Some(AttemptView { policy, target: Some(lowered(typed_text(host))) }),
{
    let line = command + seq![0x20u8] + user + seq![0x40u8] + host;
    let c = typed_text(command);
    let u = typed_text(user);
    let h = typed_text(host);
    lemma_opens(c, policy);
    assert forall|k: int| 0 <= k < line.len() implies 0x20 <= #[trigger] line[k] <= 0x7e by {
        if k < command.len() {
            assert(line[k] == command[k]);
            assert(c[k] == command[k] as char);
            assert(0x61 <= (c[k] as int) <= 0x7a);
        } else if command.len() < k < command.len() + 1 + user.len() {
            let i = k - command.len() - 1;
            assert(line[k] == user[i]);
            assert(plain_char(u[i]));
            assert(u[i] == user[i] as char);
        } else if k > command.len() + 1 + user.len() {
            let i = k - command.len() - user.len() - 2;
            assert(line[k] == host[i]);
            assert(plain_char(h[i]));
            assert(h[i] == host[i] as char);
        }
    }
    lemma_typed_line(m, line);
    let text = c + seq![' '] + u + seq!['@'] + h;
    assert(typed_text(line) =~= text);
    assert(text[0] == c[0]);
    assert(bare(c[0]));
    assert(skip_space(text, 0) == 0);
    assert(text.skip(0) =~= text);
    logins_ask_for_the_host(c, policy, u, h);
    assert((line + seq![0x0du8]).drop_last() =~= line);
    assert((line + seq![0x0au8]).drop_last() =~= line);
}

proof fn lemma_no_break(s: Seq<char>, i: int)
    requires
        0 <= i <= s.len(),
        forall|k: int| i <= k < s.len() ==> #[trigger] s[k] != '\n',
    ensures
        char_from(s, '\n', i) == s.len(),
    decreases s.len() - i,
{
    if i < s.len() {
        lemma_no_break(s, i + 1);
    }
}

proof fn lemma_break_at(s: Seq<char>, i: int, at: int)
    requires
        0 <= i <= at < s.len(),
        s[at] == '\n',
        forall|k: int| i <= k < at ==> #[trigger] s[k] != '\n',
    ensures
        char_from(s, '\n', i) == at,
    decreases at - i,
{
    if i < at {
        lemma_break_at(s, i + 1, at);
    }
}

/// The lines of one line with its ending.
pub proof fn lemma_one_line(line: Seq<char>)
    requires
        forall|k: int| 0 <= k < line.len() ==> #[trigger] line[k] != '\n' && line[k] != '\r',
    ensures
        lines(line + seq!['\r', '\n']) == seq![line],
{
    let s = line + seq!['\r', '\n'];
    let n = line.len() as int;
    assert forall|k: int| 0 <= k < n + 1 implies #[trigger] s[k] != '\n' by {
        if k < n {
            assert(s[k] == line[k]);
        }
    }
    lemma_break_at(s, 0, n + 1);
    assert(s[n] == '\r');
    assert(line_content(s, 0, n + 1) =~= line);
    assert(lines_from(s, n + 2) =~= Seq::<Seq<char>>::empty());
    assert(lines(s) =~= seq![line]);
}

pub proof fn lemma_ascii_len(s: Seq<char>)
    requires
        forall|k: int| 0 <= k < s.len() ==> 0 <= (#[trigger] s[k] as int) < 0x80,
    ensures
        byte_len(s) == s.len(),
        byte_len(lowered(s)) == s.len(),
{
    assert(is_ascii_chars(s));
    is_ascii_chars_encode_utf8(s);
    let l = lowered(s);
    assert forall|k: int| 0 <= k < l.len() implies 0 <= (#[trigger] l[k] as int) < 0x80 by {
        assert(l[k] == char_lower(s[k]));
    }
    assert(is_ascii_chars(l));
    is_ascii_chars_encode_utf8(l);
}

/// `Connection to HOST closed.`, as `ssh` writes it at the end of a session.
pub open spec fn closing_output(host: Seq<char>) -> Seq<char> {
    seq!['C', 'o', 'n', 'n', 'e', 'c', 't', 'i', 'o', 'n', ' ', 't', 'o', ' '] + host + seq![
        ' ',
        'c',
        'l',
        'o',
        's',
        'e',
        'd',
        '.',
        '\r',
        '\n',
    ]
}

/// What the end of an `ssh` session tells a runtime that has seen no other
/// output since.
proof fn lemma_closing_markers(m: RuntimeModel, host: Seq<char>)
    requires
        m.window.len() == 0,
        plain_name(host),
        host.len() <= 200,
    ensures
        m.with_output(closing_output(host)).markers() == seq![
            MarkerView { kind: CloseMarkerKind::SshLike, target: Some(lowered(host)) },
        ],
{
    let text = closing_output(host);
    let h = lowered(host);
    let low = lowered(text);
    let line = closing_line(h);
    assert forall|k: int| 0 <= k < text.len() implies 0 <= (#[trigger] text[k] as int) < 0x80 by {
        if 14 <= k < 14 + host.len() {
            assert(text[k] == host[k - 14]);
            assert(plain_char(host[k - 14]));
        }
    }
    lemma_ascii_len(text);
    assert(m.window + text =~= text);
    assert(recent(text, 65536) == text);
    assert(low =~= line + seq!['\r', '\n']) by {
        assert forall|k: int| 0 <= k < low.len() implies low[k] == (line + seq!['\r', '\n'])[k] by {
            assert(low[k] == char_lower(text[k]));
            if 14 <= k < 14 + host.len() {
                assert(text[k] == host[k - 14]);
                assert(h[k - 14] == char_lower(host[k - 14]));
            }
        }
    }
    let n = low.len() as int;
    assert(low[n - 1] == '\n');
    assert(lines_end(low, n) == n);
    assert(low.take(n) =~= low);
    assert(recent(low, 256) == low);
    assert(recent_lines(low, 256) == low);
    lemma_lowered_name(host);
    assert forall|k: int| 0 <= k < line.len() implies #[trigger] line[k] != '\n' && line[k] != '\r' by {
        if 14 <= k < 14 + h.len() {
            assert(line[k] == h[k - 14]);
            assert(plain_char(h[k - 14]));
        }
    }
    lemma_one_line(line);
    assert(line[0] == 'c');
    assert(line.last() == '.');
    assert(trimmed(line) =~= line);
    closing_lines_name_the_host(host, host);
    let ls = seq![line];
    assert(ls.drop_last() =~= Seq::<Seq<char>>::empty());
    assert(ls.last() == line);
    assert(markers_of(ls.drop_last()) =~= Seq::<MarkerView>::empty());
    assert(markers_of(ls) =~= seq![marker_of(line)->Some_0]);
}

/// Where the innermost session is a login to a host, the line that `ssh` writes
/// at its end leads back to the profiles of the session around it.
pub proof fn closing_goes_back_to_the_session_around(
    m: RuntimeModel,
    host: Seq<char>,
    profiles: Seq<ProfileView>,
)
    requires
        m.window.len() == 0,
        m.nesting.pending is None,
        m.nesting.stack.len() > 0,
        m.nesting.stack.last().policy == ClosePolicy::SshLike,
        m.nesting.stack.last().target == Some(lowered(host)),
        plain_name(host),
        host.len() <= 200,
    ensures
        ({
            let (after, proposed) = m.after_output(closing_output(host), profiles);
            &&& after.nesting.active == m.nesting.stack.last().profiles
            &&& after.nesting.stack == m.nesting.stack.drop_last()
            &&& m.nesting.stack.last().profiles != m.nesting.active ==> proposed == Some(
                m.nesting.stack.last().profiles,
            )
            &&& m.nesting.stack.last().profiles == m.nesting.active ==> proposed is None
        }),
{
    let start = RuntimeModel { rollback: None, ..m };
    let text = closing_output(host);
    lemma_closing_markers(start, host);
    closing_lines_name_the_host(host, host);
    let w = start.with_output(text);
    let ms = w.markers();
    assert(marker_fits(ms[0], w.nesting.stack.last().policy, w.nesting.stack.last().target));
    assert(w.nesting.top_closed(ms));
    assert(!w.nesting.pending_closed(ms));
    assert(text.len() > 0);
}

/// The same line about another host leaves such a session open.
pub proof fn closing_another_host_changes_no_session(
    m: RuntimeModel,
    host: Seq<char>,
    other: Seq<char>,
)
    requires
        m.window.len() == 0,
        m.nesting.stack.len() > 0,
        m.nesting.stack.last().policy == ClosePolicy::SshLike,
        m.nesting.stack.last().target == Some(lowered(host)),
        plain_name(host),
        plain_name(other),
        lowered(other) != lowered(host),
        other.len() <= 200,
    ensures
        !m.nesting.top_closed(m.with_output(closing_output(other)).markers()),
{
    lemma_closing_markers(m, other);
    closing_lines_name_the_host(other, host);
}

} // verus!
