//! The forms that prompts have: which lines are prompts of which kind of device,
//! whatever the names in them are.

use vstd::prelude::*;

use crate::builtin::{
    arista_profile, cisco_profile, fortinet_profile, juniper_profile, linux_unix_profile,
    palo_alto_profile, versa_profile,
};
use crate::logins::plain_char;
use crate::profiles::{generic, is_detection, lookup, ProfileView};
use crate::prompts::{
    arista_line, cisco_line, cisco_name, command, control_trimmed, controls_start, first_of,
    first_pair, fortinet_host, fortinet_line, host_end, juniper_line, last_marker, last_of,
    last_pair, last_word, name, palo_alto_line, skip_controls, token, unix_line, user_at_host,
    versa_line, PromptMatcherKind,
};
use crate::signals::some_signal;
use crate::text::{
    ascii_control_char, char_from, line_content, lines, lines_from, lowered, skip_space, skip_word,
    space_start, text_contains, text_starts_with, trimmed_end, whitespace, words, words_from,
};

verus! {

/// A user or a host: ASCII letters and digits, underscore, full stop and hyphen.
pub open spec fn named(s: Seq<char>) -> bool {
    s.len() > 0 && forall|k: int| 0 <= k < s.len() ==> plain_char(#[trigger] s[k])
}

/// ASCII control characters.
pub open spec fn control(c: char) -> bool {
    (c as int) < 0x20 || (c as int) == 0x7f
}

/// Blanks and tabs.
pub open spec fn blanks(s: Seq<char>) -> bool {
    forall|k: int| 0 <= k < s.len() ==> #[trigger] s[k] == ' ' || s[k] == '\t'
}

proof fn lemma_named(s: Seq<char>)
    requires
        named(s),
    ensures
        name(s),
        cisco_name(s),
        forall|k: int|
            0 <= k < s.len() ==> !whitespace(#[trigger] s[k]) && !ascii_control_char(s[k]) && s[k]
                != '@' && s[k] != ':' && s[k] != '#' && s[k] != '>' && s[k] != '$' && s[k] != '%'
                && s[k] != ' ' && s[k] != '(' && s[k] != ')',
{
    assert forall|k: int| 0 <= k < s.len() implies crate::prompts::name_char(#[trigger] s[k])
        && crate::prompts::cisco_char(s[k]) && !whitespace(s[k]) && !ascii_control_char(s[k])
        && s[k] != '@' && s[k] != ':' && s[k] != '#' && s[k] != '>' && s[k] != '$' && s[k] != '%'
        && s[k] != ' ' && s[k] != '(' && s[k] != ')' by {
        assert(plain_char(s[k]));
    }
}

proof fn lemma_space_back(s: Seq<char>, from: int, end: int)
    requires
        0 <= from <= end <= s.len(),
        from > 0 ==> !whitespace(s[from - 1]),
        forall|k: int| from <= k < end ==> whitespace(#[trigger] s[k]),
    ensures
        space_start(s, end) == from,
    decreases end,
{
    if end > from {
        lemma_space_back(s, from, end - 1);
    }
}

proof fn lemma_controls_back(s: Seq<char>, end: int)
    requires
        0 <= end <= s.len(),
    ensures
        0 <= controls_start(s, end) <= end,
        controls_start(s, end) > 0 ==> !ascii_control_char(s[controls_start(s, end) - 1]),
        forall|k: int| controls_start(s, end) <= k < end ==> ascii_control_char(#[trigger] s[k]),
    decreases end,
{
    if 0 < end && ascii_control_char(s[end - 1]) {
        lemma_controls_back(s, end - 1);
    }
}

/// Text that begins and ends visibly stays without the blanks behind it.
proof fn lemma_trimmed_line(x: Seq<char>, tail: Seq<char>)
    requires
        x.len() > 0,
        !ascii_control_char(x[0]),
        !ascii_control_char(x.last()),
        !whitespace(x.last()),
        blanks(tail),
    ensures
        trimmed_end(control_trimmed(x + tail)) == x,
{
    let s = x + tail;
    assert(s[0] == x[0]);
    assert(skip_controls(s, 0) == 0);
    lemma_controls_back(s, s.len() as int);
    let e = controls_start(s, s.len() as int);
    if e < x.len() {
        assert(s[x.len() - 1] == x.last());
        assert(ascii_control_char(s[x.len() - 1]));
    }
    let t = s.subrange(0, e);
    assert forall|k: int| x.len() <= k < e implies whitespace(#[trigger] t[k]) by {
        assert(t[k] == tail[k - x.len()]);
    }
    assert(t[x.len() - 1] == x.last());
    lemma_space_back(t, x.len() as int, e);
    assert(t.subrange(0, x.len() as int) =~= x);
}

proof fn lemma_skip_none(s: Seq<char>, i: int, j: int)
    requires
        0 <= i <= j <= s.len(),
        forall|k: int| i <= k < j ==> !whitespace(#[trigger] s[k]),
        j < s.len() ==> whitespace(s[j]),
    ensures
        skip_word(s, i) == j,
    decreases j - i,
{
    if i < j {
        lemma_skip_none(s, i + 1, j);
    }
}

/// The first word of a line.
proof fn lemma_first_word(w: Seq<char>, tail: Seq<char>)
    requires
        w.len() > 0,
        forall|k: int| 0 <= k < w.len() ==> !whitespace(#[trigger] w[k]),
        tail.len() > 0 ==> whitespace(tail[0]),
    ensures
        words(w + tail).len() > 0,
        words(w + tail)[0] == w,
{
    let s = w + tail;
    assert forall|k: int| 0 <= k < w.len() implies !whitespace(#[trigger] s[k]) by {
        assert(s[k] == w[k]);
    }
    assert(skip_space(s, 0) == 0);
    lemma_skip_none(s, 0, w.len() as int);
    assert(s.subrange(0, w.len() as int) =~= w);
}

/// The last word of a text.
proof fn lemma_last_word(s: Seq<char>, i: int, w: int)
    requires
        0 <= i <= w < s.len(),
        w > 0 ==> whitespace(s[w - 1]),
        i == w || i == 0 || whitespace(s[i - 1]) || (i < s.len() && whitespace(s[i])),
        forall|k: int| w <= k < s.len() ==> !whitespace(#[trigger] s[k]),
    ensures
        words_from(s, i).len() > 0,
        words_from(s, i).last() == s.subrange(w, s.len() as int),
    decreases s.len() - i,
{
    crate::text::lemma_skip(s, i);
    let a = skip_space(s, i);
    if a > w {
        assert(!whitespace(s[w]));
        assert(whitespace(s[w]));
    }
    crate::text::lemma_skip(s, a);
    let b = skip_word(s, a);
    if a == w {
        if b < s.len() {
            assert(!whitespace(s[b]));
        }
        crate::text::lemma_skip(s, b);
        assert(words_from(s, b) =~= Seq::<Seq<char>>::empty());
        assert(words_from(s, i) =~= seq![s.subrange(a, b)]);
    } else {
        if b > w {
            assert(!whitespace(s[w - 1]));
        }
        if b == w {
            assert(whitespace(s[w]));
        }
        assert(b < w);
        lemma_last_word(s, b, w);
        assert(words_from(s, i) =~= seq![s.subrange(a, b)] + words_from(s, b));
    }
}

proof fn lemma_last_of(s: Seq<char>, a: char, b: char, c: char, at: int, end: int)
    requires
        0 <= at < end <= s.len(),
        s[at] == a || s[at] == b || s[at] == c,
        forall|k: int| at < k < end ==> #[trigger] s[k] != a && s[k] != b && s[k] != c,
    ensures
        last_of(s, a, b, c, end) == Some(at),
    decreases end,
{
    if end - 1 > at {
        lemma_last_of(s, a, b, c, at, end - 1);
    }
}

proof fn lemma_first_of(s: Seq<char>, a: char, b: char, at: int, i: int)
    requires
        0 <= i <= at < s.len(),
        s[at] == a || s[at] == b,
        forall|k: int| i <= k < at ==> #[trigger] s[k] != a && s[k] != b,
    ensures
        first_of(s, a, b, i) == Some(at),
    decreases at - i,
{
    if i < at {
        lemma_first_of(s, a, b, at, i + 1);
    }
}

proof fn lemma_host_end(s: Seq<char>, at: int, i: int)
    requires
        0 <= i <= at <= s.len(),
        at < s.len() ==> s[at] == ':' || s[at] == ' ',
        forall|k: int|
            i <= k < at ==> #[trigger] s[k] != ':' && !crate::text::ascii_space_char(s[k]),
    ensures
        host_end(s, i) == at,
    decreases at - i,
{
    if i < at {
        lemma_host_end(s, at, i + 1);
    }
}

/// The line of a shell: something in front, user and host, a path, and a marker,
/// with blanks behind it.
pub open spec fn shell_prompt(
    front: Seq<char>,
    user: Seq<char>,
    host: Seq<char>,
    path: Seq<char>,
    marker: char,
    tail: Seq<char>,
) -> Seq<char> {
    front + user + seq!['@'] + host + path + seq![marker] + tail
}

/// A line with user and host, then nothing or `:` and a path, and then `#`, `$`
/// or `%` is the prompt of a Unix shell, also with blanks behind it and with
/// words in front. Where `%` is the marker, the path is needed.
#[verifier::rlimit(60)]
#[verifier::spinoff_prover]
pub proof fn shells_are_told_by_their_prompts(
    front: Seq<char>,
    user: Seq<char>,
    host: Seq<char>,
    path: Seq<char>,
    marker: char,
    tail: Seq<char>,
)
    requires
        front.len() > 0 ==> !control(front[0]) && front.last() == ' ',
        named(user),
        named(host),
        path.len() > 0 ==> path[0] == ':' && !whitespace(path.last()),
        forall|k: int| 0 <= k < path.len() ==> #[trigger] path[k] != '@' && !control(path[k]),
        marker == '#' || marker == '$' || (marker == '%' && path.len() > 0),
        blanks(tail),
    ensures
        unix_line(shell_prompt(front, user, host, path, marker, tail)),
        PromptMatcherKind::UnixUserAtHostPath.line(
            shell_prompt(front, user, host, path, marker, tail),
        ),
{
    let head = front + user;
    let body = head + seq!['@'] + host + path;
    let p = body + seq![marker];
    let line = shell_prompt(front, user, host, path, marker, tail);
    lemma_named(user);
    lemma_named(host);
    assert(line =~= p + tail);
    assert(p[0] == if front.len() > 0 {
        front[0]
    } else {
        user[0]
    });
    assert(!ascii_control_char(p[0]));
    assert(p.last() == marker);
    lemma_trimmed_line(p, tail);
    let m = body.len() as int;
    lemma_last_of(p, '#', '$', '%', m, p.len() as int);
    assert(p.subrange(0, m) =~= body);
    // The body ends visibly.
    let n = body.len() as int;
    assert(!whitespace(body[n - 1])) by {
        if path.len() > 0 {
            assert(body[n - 1] == path.last());
        } else {
            assert(body[n - 1] == host[host.len() - 1]);
        }
    }
    lemma_space_back(body, n, n);
    assert(body.subrange(0, n) =~= body);
    assert(trimmed_end(body) == body);
    let at = head.len() as int;
    assert forall|k: int| at < k < n implies #[trigger] body[k] != '@' by {
        if k < at + 1 + host.len() {
            assert(body[k] == host[k - at - 1]);
        } else {
            assert(body[k] == path[k - at - 1 - host.len()]);
        }
    }
    lemma_last_of(body, '@', '@', '@', at, n);
    assert(body.subrange(0, at) =~= head);
    let w = front.len() as int;
    assert forall|k: int| w <= k < head.len() implies !whitespace(#[trigger] head[k]) by {
        assert(head[k] == user[k - w]);
    }
    if w > 0 {
        assert(head[w - 1] == ' ');
    }
    lemma_last_word(head, 0, w);
    assert(head.subrange(w, head.len() as int) =~= user);
    assert(last_word(head) == user);
    let rest = body.subrange(at + 1, n);
    assert(rest =~= host + path);
    let e = host.len() as int;
    assert forall|k: int| 0 <= k < e implies #[trigger] rest[k] != ':'
        && !crate::text::ascii_space_char(rest[k]) by {
        assert(rest[k] == host[k]);
    }
    if path.len() > 0 {
        assert(rest[e] == path[0]);
    }
    lemma_host_end(rest, e, 0);
    assert(rest.subrange(0, e) =~= host);
}

/// Lines that are no prompts of a shell: such a line holds `@`, and the last
/// character that is no white space and no control is `#`, `$` or `%`.
pub proof fn shell_prompts_end_in_a_marker(line: Seq<char>)
    requires
        unix_line(line),
    ensures
        ({
            let p = trimmed_end(control_trimmed(line));
            &&& p.len() > 3
            &&& p.last() == '#' || p.last() == '$' || p.last() == '%'
            &&& p.contains('@')
        }),
{
    let p = trimmed_end(control_trimmed(line));
    let m = last_marker(p, '#', '$', '%')->Some_0;
    lemma_last_found(p, '#', '$', '%', p.len() as int);
    let q = p.subrange(0, m);
    let body = trimmed_end(q);
    crate::text::lemma_space_start(q, q.len() as int);
    lemma_last_found(body, '@', '@', '@', body.len() as int);
    let at = last_marker(body, '@', '@', '@')->Some_0;
    assert(p[at] == '@');
    let h = body.subrange(0, at);
    if at == 0 {
        assert(words(h) =~= Seq::<Seq<char>>::empty());
    }
    let rest = body.subrange(at + 1, body.len() as int);
    assert(name(rest.subrange(0, host_end(rest, 0))));
    lemma_host_end_in(rest, 0);
}

proof fn lemma_host_end_in(s: Seq<char>, i: int)
    requires
        0 <= i <= s.len(),
    ensures
        i <= host_end(s, i) <= s.len(),
    decreases s.len() - i,
{
    if i < s.len() {
        lemma_host_end_in(s, i + 1);
    }
}

proof fn lemma_last_found(s: Seq<char>, a: char, b: char, c: char, end: int)
    requires
        0 <= end <= s.len(),
    ensures
        match last_of(s, a, b, c, end) {
            Some(m) => 0 <= m < end && (s[m] == a || s[m] == b || s[m] == c),
            None => true,
        },
    decreases end,
{
    if end > 0 {
        lemma_last_found(s, a, b, c, end - 1);
    }
}

/// A first word without controls at its ends is what prompts are looked for in.
proof fn lemma_token(w: Seq<char>, tail: Seq<char>)
    requires
        w.len() > 0,
        forall|k: int|
            0 <= k < w.len() ==> !whitespace(#[trigger] w[k]) && !ascii_control_char(w[k]),
        tail.len() > 0 ==> whitespace(tail[0]),
    ensures
        token(w + tail) == w,
{
    lemma_first_word(w, tail);
    assert(skip_controls(w, 0) == 0);
    assert(controls_start(w, w.len() as int) == w.len());
    assert(w.subrange(0, w.len() as int) =~= w);
}

/// Names and what Cisco prompts have besides: round brackets.
pub open spec fn bracketed_name(s: Seq<char>) -> bool {
    s.len() > 0 && forall|k: int|
        0 <= k < s.len() ==> plain_char(#[trigger] s[k]) || s[k] == '(' || s[k] == ')'
}

/// ASCII letters.
pub open spec fn letters(s: Seq<char>) -> bool {
    forall|k: int|
        0 <= k < s.len() ==> 0x41 <= (#[trigger] s[k] as int) <= 0x5a || 0x61 <= (s[k] as int)
            <= 0x7a
}

/// A host, also with a mode in brackets, and `>` or `#` is a prompt of Cisco
/// devices, with a command behind it or without.
pub proof fn cisco_devices_are_told_by_their_prompts(
    host: Seq<char>,
    marker: char,
    typed: Seq<char>,
    tail: Seq<char>,
)
    requires
        bracketed_name(host),
        marker == '>' || marker == '#',
        letters(typed),
        tail.len() > 0 ==> tail[0] == ' ',
    ensures
        cisco_line(host + seq![marker] + typed + tail),
        PromptMatcherKind::CiscoHostMarker.line(host + seq![marker] + typed + tail),
{
    let w = host + seq![marker] + typed;
    assert forall|k: int| 0 <= k < host.len() implies crate::prompts::cisco_char(#[trigger] host[k])
        && !whitespace(host[k]) && !ascii_control_char(host[k]) && host[k] != '>' && host[k] != '#' by {
        assert(plain_char(host[k]) || host[k] == '(' || host[k] == ')');
    }
    assert forall|k: int| 0 <= k < w.len() implies !whitespace(#[trigger] w[k])
        && !ascii_control_char(w[k]) by {
        if k < host.len() {
            assert(w[k] == host[k]);
        } else if k > host.len() {
            let i = k - host.len() - 1;
            assert(w[k] == typed[i]);
        }
    }
    lemma_token(w, tail);
    let m = host.len() as int;
    assert forall|k: int| 0 <= k < m implies #[trigger] w[k] != '>' && w[k] != '#' by {
        assert(w[k] == host[k]);
    }
    lemma_first_of(w, '>', '#', m, 0);
    assert(w.subrange(0, m) =~= host);
    assert(w.subrange(m + 1, w.len() as int) =~= typed);
    assert(command(typed));
}

/// User and host with `>` or `%` and nothing else in the word is a prompt of
/// Juniper devices.
pub proof fn juniper_devices_are_told_by_their_prompts(
    user: Seq<char>,
    host: Seq<char>,
    marker: char,
    tail: Seq<char>,
)
    requires
        named(user),
        named(host),
        marker == '>' || marker == '%',
        tail.len() > 0 ==> tail[0] == ' ',
    ensures
        juniper_line(user + seq!['@'] + host + seq![marker] + tail),
        PromptMatcherKind::JunosUserAtHost.line(user + seq!['@'] + host + seq![marker] + tail),
{
    lemma_login_word(user, host, marker, tail);
    let w = user + seq!['@'] + host + seq![marker];
    lemma_last_of(w, '>', '%', '%', w.len() - 1, w.len() as int);
}

/// What user, host and marker in one word are read as.
proof fn lemma_login_word(user: Seq<char>, host: Seq<char>, marker: char, tail: Seq<char>)
    requires
        named(user),
        named(host),
        marker == '>' || marker == '%' || marker == '#',
        tail.len() > 0 ==> tail[0] == ' ',
    ensures
        ({
            let w = user + seq!['@'] + host + seq![marker];
            &&& token(w + tail) == w
            &&& w.last() == marker
            &&& user_at_host(w.subrange(0, w.len() - 1)) == Some((user, host))
            &&& name(user)
            &&& name(host)
        }),
{
    let w = user + seq!['@'] + host + seq![marker];
    lemma_named(user);
    lemma_named(host);
    assert forall|k: int| 0 <= k < w.len() implies !whitespace(#[trigger] w[k])
        && !ascii_control_char(w[k]) by {
        if k < user.len() {
            assert(w[k] == user[k]);
        } else if user.len() < k < user.len() + 1 + host.len() {
            assert(w[k] == host[k - user.len() - 1]);
        }
    }
    lemma_token(w, tail);
    let body = w.subrange(0, w.len() - 1);
    assert(body =~= user + seq!['@'] + host);
    assert forall|k: int| 0 <= k < user.len() implies #[trigger] body[k] != '@' by {
        assert(body[k] == user[k]);
    }
    lemma_first_of(body, '@', '@', user.len() as int, 0);
    assert(body.subrange(0, user.len() as int) =~= user);
    assert(body.subrange(user.len() as int + 1, body.len() as int) =~= host);
}

/// Host names of Palo Alto firewalls: with `pa-` or `fw-` in front, or with
/// `pan` or `palo` in them, in any case.
pub open spec fn firewall_name(host: Seq<char>) -> bool {
    let h = lowered(host);
    ||| text_starts_with(h, seq!['p', 'a', '-'])
    ||| text_starts_with(h, seq!['f', 'w', '-'])
    ||| text_contains(h, seq!['p', 'a', 'n'])
    ||| text_contains(h, seq!['p', 'a', 'l', 'o'])
}

/// Host names of Versa devices: with `versa` or `voss` in them, in any case.
pub open spec fn versa_name(host: Seq<char>) -> bool {
    let h = lowered(host);
    ||| text_contains(h, seq!['v', 'e', 'r', 's', 'a'])
    ||| text_contains(h, seq!['v', 'o', 's', 's'])
}

/// Host names of Arista switches: with `arista` or `ceos` in them, or with
/// `eos`, `leaf` or `spine` in front, in any case.
pub open spec fn switch_name(host: Seq<char>) -> bool {
    let h = lowered(host);
    ||| text_contains(h, seq!['a', 'r', 'i', 's', 't', 'a'])
    ||| text_contains(h, seq!['c', 'e', 'o', 's'])
    ||| text_starts_with(h, seq!['e', 'o', 's'])
    ||| text_starts_with(h, seq!['l', 'e', 'a', 'f'])
    ||| text_starts_with(h, seq!['s', 'p', 'i', 'n', 'e'])
}

/// User and host with `>` or `#` is a prompt of Palo Alto firewalls and of Versa
/// devices exactly where the host has a name of theirs.
pub proof fn firewalls_are_told_by_their_prompts(
    user: Seq<char>,
    host: Seq<char>,
    marker: char,
    tail: Seq<char>,
)
    requires
        named(user),
        named(host),
        marker == '>' || marker == '#',
        tail.len() > 0 ==> tail[0] == ' ',
    ensures
        palo_alto_line(user + seq!['@'] + host + seq![marker] + tail) <==> firewall_name(host),
        versa_line(user + seq!['@'] + host + seq![marker] + tail) <==> versa_name(host),
        PromptMatcherKind::PaloAltoUserAtHost.line(user + seq!['@'] + host + seq![marker] + tail)
            <==> firewall_name(host),
        PromptMatcherKind::VersaUserAtHost.line(user + seq!['@'] + host + seq![marker] + tail)
            <==> versa_name(host),
{
    lemma_login_word(user, host, marker, tail);
    let w = user + seq!['@'] + host + seq![marker];
    lemma_last_of(w, '>', '#', '#', w.len() - 1, w.len() as int);
    reveal_strlit("pa-");
    reveal_strlit("fw-");
    reveal_strlit("pan");
    reveal_strlit("palo");
    reveal_strlit("versa");
    reveal_strlit("voss");
    assert("pa-"@ =~= seq!['p', 'a', '-']);
    assert("fw-"@ =~= seq!['f', 'w', '-']);
    assert("pan"@ =~= seq!['p', 'a', 'n']);
    assert("palo"@ =~= seq!['p', 'a', 'l', 'o']);
    assert("versa"@ =~= seq!['v', 'e', 'r', 's', 'a']);
    assert("voss"@ =~= seq!['v', 'o', 's', 's']);
}

/// A host with `>` or `#` is a prompt of Arista switches exactly where the host
/// has a name of theirs.
pub proof fn switches_are_told_by_their_prompts(host: Seq<char>, marker: char, tail: Seq<char>)
    requires
        named(host),
        marker == '>' || marker == '#',
        tail.len() > 0 ==> tail[0] == ' ',
    ensures
        arista_line(host + seq![marker] + tail) <==> switch_name(host),
        PromptMatcherKind::AristaHostMarker.line(host + seq![marker] + tail) <==> switch_name(host),
{
    let w = host + seq![marker];
    lemma_named(host);
    assert forall|k: int| 0 <= k < w.len() implies !whitespace(#[trigger] w[k])
        && !ascii_control_char(w[k]) by {
        if k < host.len() {
            assert(w[k] == host[k]);
        }
    }
    lemma_token(w, tail);
    lemma_last_of(w, '>', '#', '#', w.len() - 1, w.len() as int);
    assert(w.subrange(0, host.len() as int) =~= host);
    assert(w.subrange(host.len() as int + 1, w.len() as int) =~= Seq::<char>::empty());
    reveal_strlit("arista");
    reveal_strlit("ceos");
    reveal_strlit("eos");
    reveal_strlit("leaf");
    reveal_strlit("spine");
    assert("arista"@ =~= seq!['a', 'r', 'i', 's', 't', 'a']);
    assert("ceos"@ =~= seq!['c', 'e', 'o', 's']);
    assert("eos"@ =~= seq!['e', 'o', 's']);
    assert("leaf"@ =~= seq!['l', 'e', 'a', 'f']);
    assert("spine"@ =~= seq!['s', 'p', 'i', 'n', 'e']);
}

proof fn lemma_first_pair(s: Seq<char>, a: char, b: char, at: int, i: int)
    requires
        0 <= i <= at < s.len() - 1,
        s[at] == a && s[at + 1] == b,
        forall|k: int| i <= k < at ==> !(#[trigger] s[k] == a && s[k + 1] == b),
    ensures
        first_pair(s, a, b, i) == Some(at),
    decreases at - i,
{
    if i < at {
        lemma_first_pair(s, a, b, at, i + 1);
    }
}

proof fn lemma_last_pair(s: Seq<char>, a: char, b: char, at: int, end: int)
    requires
        0 <= at,
        at + 2 <= end <= s.len(),
        s[at] == a && s[at + 1] == b,
        forall|k: int| at < k < end - 1 ==> #[trigger] s[k] != a,
    ensures
        last_pair(s, a, b, end) == Some(at),
    decreases end,
{
    if at + 2 < end {
        assert(s[end - 2] != a);
        lemma_last_pair(s, a, b, at, end - 1);
    }
}

/// A host, with a context in brackets or without, and `#` set off by a blank is a
/// prompt of Fortinet devices.
#[verifier::rlimit(40)]
pub proof fn fortinet_devices_are_told_by_their_prompts(
    host: Seq<char>,
    context: Seq<char>,
    tail: Seq<char>,
)
    requires
        named(host),
        named(context),
        tail.len() > 0 ==> tail[0] == ' ' && !control(tail.last()),
    ensures
        fortinet_line(host + seq![' ', '#'] + tail),
        fortinet_line(host + seq![' ', '('] + context + seq![')', ' ', '#'] + tail),
        PromptMatcherKind::FortinetHostHash.line(host + seq![' ', '#'] + tail),
{
    lemma_named(host);
    lemma_named(context);
    let h = host.len() as int;
    let s = host + seq![' ', '#'] + tail;
    assert(s[0] == host[0]);
    assert(s.last() == if tail.len() > 0 {
        tail.last()
    } else {
        '#'
    });
    lemma_uncontrolled(s);
    assert forall|k: int| 0 <= k < h implies !(#[trigger] s[k] == ' ' && s[k + 1] == '#') by {
        assert(s[k] == host[k]);
    }
    lemma_first_pair(s, ' ', '#', h, 0);
    assert(s.subrange(0, h) =~= host);
    lemma_space_back(host, h, h);
    assert(host.subrange(0, h) =~= host);
    assert(trimmed_end(host) == host);
    assert(host.last() == host[h - 1]);
    assert(fortinet_host(host) == host);
    assert(s.subrange(h + 2, s.len() as int) =~= tail);
    // With a context.
    let c = host + seq![' ', '('] + context + seq![')'];
    let n = c.len() as int;
    let t = host + seq![' ', '('] + context + seq![')', ' ', '#'] + tail;
    assert(t =~= c + seq![' ', '#'] + tail);
    assert(t[0] == host[0]);
    assert(t.last() == if tail.len() > 0 {
        tail.last()
    } else {
        '#'
    });
    lemma_uncontrolled(t);
    assert forall|k: int| 0 <= k < n implies !(#[trigger] t[k] == ' ' && t[k + 1] == '#') by {
        if k < h {
            assert(t[k] == host[k]);
        } else if k == h {
            assert(t[k + 1] == '(');
        } else if h + 2 <= k < n - 1 {
            assert(t[k] == context[k - h - 2]);
        }
    }
    lemma_first_pair(t, ' ', '#', n, 0);
    assert(t.subrange(0, n) =~= c);
    assert(c[n - 1] == ')');
    lemma_space_back(c, n, n);
    assert(c.subrange(0, n) =~= c);
    assert(trimmed_end(c) == c);
    assert forall|k: int| h < k < n - 1 implies #[trigger] c[k] != ' ' by {
        if k >= h + 2 {
            assert(c[k] == context[k - h - 2]);
        }
    }
    lemma_last_pair(c, ' ', '(', h, n);
    assert(c.subrange(0, h) =~= host);
    assert(fortinet_host(c) == host);
    assert(t.subrange(n + 2, t.len() as int) =~= tail);
}

proof fn lemma_uncontrolled(s: Seq<char>)
    requires
        s.len() > 0,
        !ascii_control_char(s[0]),
        !ascii_control_char(s.last()),
    ensures
        control_trimmed(s) == s,
{
    assert(skip_controls(s, 0) == 0);
    assert(controls_start(s, s.len() as int) == s.len());
    assert(s.subrange(0, s.len() as int) =~= s);
}

proof fn lemma_unbroken(s: Seq<char>, i: int)
    requires
        0 <= i <= s.len(),
        forall|k: int| i <= k < s.len() ==> #[trigger] s[k] != '\n',
    ensures
        char_from(s, '\n', i) == s.len(),
    decreases s.len() - i,
{
    if i < s.len() {
        lemma_unbroken(s, i + 1);
    }
}

/// What stands in the last line of a text stands in the text.
pub proof fn lemma_last_line(text: Seq<char>, i: int, line: Seq<char>)
    requires
        0 <= i <= text.len() - line.len(),
        line.len() > 0,
        text.subrange(text.len() - line.len(), text.len() as int) == line,
        text.len() > line.len() ==> text[text.len() - line.len() - 1] == '\n',
        forall|k: int| 0 <= k < line.len() ==> #[trigger] line[k] != '\n',
    ensures
        lines_from(text, i).len() > 0,
        lines_from(text, i).last() == line,
    decreases text.len() - i,
{
    let from = text.len() - line.len();
    crate::text::lemma_char_from(text, '\n', i);
    let k = char_from(text, '\n', i);
    assert forall|j: int| from <= j < text.len() implies #[trigger] text[j] != '\n' by {
        assert(line[j - from] == text.subrange(from, text.len() as int)[j - from]);
    }
    if i == from {
        lemma_unbroken(text, i);
        assert(lines_from(text, i) =~= seq![line]);
    } else {
        assert(k < from) by {
            if k >= from {
                assert(text[from - 1] == '\n');
            }
        }
        lemma_last_line(text, k + 1, line);
        assert(lines_from(text, i) =~= seq![line_content(text, i, k)] + lines_from(text, k + 1));
    }
}

/// A prompt at the end of a text tells of the profile that has such prompts: it
/// is told at startup, unless a signal speaks against it, and detection names it.
pub proof fn prompts_tell_of_profiles(
    profiles: Seq<ProfileView>,
    p: ProfileView,
    before: Seq<char>,
    line: Seq<char>,
    names: Seq<Seq<char>>,
)
    requires
        lookup(profiles, p.name) == Some(p),
        p.name != seq!['g', 'e', 'n', 'e', 'r', 'i', 'c'],
        line.len() > 0,
        p.runtime.startup_prompt.line(line),
        before.len() > 0 ==> before.last() == '\n',
        forall|k: int| 0 <= k < line.len() ==> #[trigger] line[k] != '\n',
        !some_signal(p.runtime.negative_signals, before + line),
        is_detection(profiles, before + line, names),
    ensures
        p.told_by(before + line),
        names.contains(p.name),
{
    let text = before + line;
    reveal_strlit("generic");
    assert("generic"@ =~= seq!['g', 'e', 'n', 'e', 'r', 'i', 'c']);
    assert(text.subrange(text.len() - line.len(), text.len() as int) =~= line);
    if before.len() > 0 {
        assert(text[before.len() - 1] == before.last());
    }
    lemma_last_line(text, 0, line);
    let n = lines(text).len() - 1;
    assert(p.runtime.startup_prompt.line(lines(text)[n]));
    assert(p.runtime.startup_prompt.text(text));
    assert(names.skip(1).contains(p.name));
    let k = choose|k: int| 0 <= k < names.skip(1).len() && names.skip(1)[k] == p.name;
    assert(names[k + 1] == p.name);
}

/// Which prompts the bundled profiles have, at startup and later.
pub proof fn bundled_profiles_have_their_prompts()
    ensures
        linux_unix_profile().runtime.startup_prompt is UnixUserAtHostPath,
        linux_unix_profile().runtime.runtime_prompt is UnixUserAtHostPath,
        juniper_profile().runtime.startup_prompt is JunosUserAtHost,
        juniper_profile().runtime.runtime_prompt is JunosUserAtHost,
        cisco_profile().runtime.startup_prompt is CiscoHostMarker,
        cisco_profile().runtime.runtime_prompt is CiscoHostMarker,
        arista_profile().runtime.startup_prompt is AristaHostMarker,
        arista_profile().runtime.runtime_prompt is AristaHostMarker,
        fortinet_profile().runtime.startup_prompt is FortinetHostHash,
        fortinet_profile().runtime.runtime_prompt is FortinetHostHash,
        palo_alto_profile().runtime.startup_prompt is PaloAltoUserAtHost,
        palo_alto_profile().runtime.runtime_prompt is PaloAltoUserAtHost,
        versa_profile().runtime.startup_prompt is VersaUserAtHost,
        versa_profile().runtime.runtime_prompt is VersaUserAtHost,
        forall|text: Seq<char>|
            !#[trigger] some_signal(linux_unix_profile().runtime.negative_signals, text),
{
}

} // verus!
