//! What the prompts of network devices and shells look like.

use vstd::prelude::*;

use crate::text::{
    ascii_alnum_char, ascii_control_char, ascii_letter_char, ascii_space_char, char_views,
    chars_contain, chars_of, chars_start_with, is_ascii_alnum_char, is_ascii_control_char,
    is_ascii_letter_char, is_ascii_space_char, lines, lowered, split_lines, split_words,
    text_contains, text_starts_with, to_lower_chars, trim_end, trimmed_end, words,
};

verus! {

/// Characters of user and host names in prompts.
pub open spec fn name_char(c: char) -> bool {
    ascii_alnum_char(c) || c == '_' || c == '.' || c == '-'
}

/// Characters of Cisco prompts before their marker.
pub open spec fn cisco_char(c: char) -> bool {
    name_char(c) || c == '(' || c == ')'
}

/// Characters of a command that is typed right behind a marker.
pub open spec fn command_char(c: char) -> bool {
    ascii_letter_char(c) || c == ' ' || c == '\t'
}

pub open spec fn name(s: Seq<char>) -> bool {
    s.len() > 0 && forall|k: int| 0 <= k < s.len() ==> name_char(#[trigger] s[k])
}

pub open spec fn cisco_name(s: Seq<char>) -> bool {
    s.len() > 0 && forall|k: int| 0 <= k < s.len() ==> cisco_char(#[trigger] s[k])
}

pub open spec fn command(s: Seq<char>) -> bool {
    forall|k: int| 0 <= k < s.len() ==> command_char(#[trigger] s[k])
}

/// First offset at or behind `i` that holds no ASCII control.
pub open spec fn skip_controls(s: Seq<char>, i: int) -> int
    decreases s.len() - i,
{
    if 0 <= i < s.len() && ascii_control_char(s[i]) {
        skip_controls(s, i + 1)
    } else {
        i
    }
}

/// Offset behind the last character before `end` that is no ASCII control.
pub open spec fn controls_start(s: Seq<char>, end: int) -> int
    decreases end,
{
    if 0 < end <= s.len() && ascii_control_char(s[end - 1]) {
        controls_start(s, end - 1)
    } else {
        end
    }
}

proof fn lemma_controls(s: Seq<char>)
    ensures
        0 <= skip_controls(s, 0) <= s.len(),
        skip_controls(s, 0) < s.len() ==> skip_controls(s, 0) < controls_start(s, s.len() as int)
            <= s.len(),
{
    lemma_skip_controls(s, 0);
    lemma_controls_start(s, s.len() as int);
    let start = skip_controls(s, 0);
    let end = controls_start(s, s.len() as int);
    if start < s.len() && end <= start {
        assert(ascii_control_char(s[start]));
    }
}

proof fn lemma_skip_controls(s: Seq<char>, i: int)
    requires
        0 <= i <= s.len(),
    ensures
        i <= skip_controls(s, i) <= s.len(),
        skip_controls(s, i) < s.len() ==> !ascii_control_char(s[skip_controls(s, i)]),
    decreases s.len() - i,
{
    if i < s.len() && ascii_control_char(s[i]) {
        lemma_skip_controls(s, i + 1);
    }
}

proof fn lemma_controls_start(s: Seq<char>, end: int)
    requires
        0 <= end <= s.len(),
    ensures
        0 <= controls_start(s, end) <= end,
        forall|k: int| controls_start(s, end) <= k < end ==> ascii_control_char(#[trigger] s[k]),
    decreases end,
{
    if 0 < end && ascii_control_char(s[end - 1]) {
        lemma_controls_start(s, end - 1);
    }
}

/// `s` without ASCII controls at its start and end.
pub open spec fn control_trimmed(s: Seq<char>) -> Seq<char> {
    if skip_controls(s, 0) >= s.len() {
        Seq::empty()
    } else {
        s.subrange(skip_controls(s, 0), controls_start(s, s.len() as int))
    }
}

/// The first word of a line, where prompts stand.
pub open spec fn token(line: Seq<char>) -> Seq<char> {
    control_trimmed(
        if words(line).len() > 0 {
            words(line)[0]
        } else {
            line
        },
    )
}

/// The first of `a` and `b` at or behind `i`.
pub open spec fn first_of(s: Seq<char>, a: char, b: char, i: int) -> Option<int>
    decreases s.len() - i,
{
    if !(0 <= i < s.len()) {
        None
    } else if s[i] == a || s[i] == b {
        Some(i)
    } else {
        first_of(s, a, b, i + 1)
    }
}

/// The last of `a`, `b` and `c` before `end`.
pub open spec fn last_of(s: Seq<char>, a: char, b: char, c: char, end: int) -> Option<int>
    decreases end,
{
    if !(0 < end <= s.len()) {
        None
    } else if s[end - 1] == a || s[end - 1] == b || s[end - 1] == c {
        Some(end - 1)
    } else {
        last_of(s, a, b, c, end - 1)
    }
}

pub open spec fn last_marker(s: Seq<char>, a: char, b: char, c: char) -> Option<int> {
    last_of(s, a, b, c, s.len() as int)
}

/// The last place before `end` at which `a` and `b` stand next to each other.
pub open spec fn last_pair(s: Seq<char>, a: char, b: char, end: int) -> Option<int>
    decreases end,
{
    if !(1 < end <= s.len()) {
        None
    } else if s[end - 2] == a && s[end - 1] == b {
        Some(end - 2)
    } else {
        last_pair(s, a, b, end - 1)
    }
}

/// The first place at or behind `i` at which `a` and `b` stand next to each
/// other.
pub open spec fn first_pair(s: Seq<char>, a: char, b: char, i: int) -> Option<int>
    decreases s.len() - i,
{
    if !(0 <= i < s.len() - 1) {
        None
    } else if s[i] == a && s[i + 1] == b {
        Some(i)
    } else {
        first_pair(s, a, b, i + 1)
    }
}

/// `host>` or `host#`, with no `user@` before it; a command may stand right
/// behind it.
pub open spec fn cisco_line(line: Seq<char>) -> bool {
    let p = token(line);
    match first_of(p, '>', '#', 0) {
        Some(m) => cisco_name(p.subrange(0, m)) && command(p.subrange(m + 1, p.len() as int)),
        None => false,
    }
}

/// A host name that Arista switches commonly have.
pub open spec fn arista_host(host: Seq<char>) -> bool {
    let h = lowered(host);
    text_contains(h, "arista"@) || text_contains(h, "ceos"@) || text_starts_with(h, "eos"@)
        || text_starts_with(h, "leaf"@) || text_starts_with(h, "spine"@)
}

/// A Cisco-like prompt with a host name of an Arista switch.
pub open spec fn arista_line(line: Seq<char>) -> bool {
    let p = token(line);
    match last_marker(p, '>', '#', '#') {
        Some(m) => arista_host(p.subrange(0, m)) && name(p.subrange(0, m)) && command(
            p.subrange(m + 1, p.len() as int),
        ),
        None => false,
    }
}

/// The host of a Fortinet prompt: without a context in brackets.
pub open spec fn fortinet_host(host: Seq<char>) -> Seq<char> {
    if !(host.len() > 0 && host.last() == ')') {
        host
    } else {
        match last_pair(host, ' ', '(', host.len() as int) {
            Some(k) => trimmed_end(host.subrange(0, k)),
            None => host,
        }
    }
}

/// `host #`, with the marker set off by a blank.
pub open spec fn fortinet_line(line: Seq<char>) -> bool {
    let t = control_trimmed(line);
    match first_pair(t, ' ', '#', 0) {
        Some(k) => {
            let rest = t.subrange(k + 2, t.len() as int);
            &&& name(fortinet_host(trimmed_end(t.subrange(0, k))))
            &&& rest.len() > 0 ==> ascii_space_char(rest[0]) || ascii_letter_char(rest[0])
        },
        None => false,
    }
}

/// The last word of `s`, or nothing.
pub open spec fn last_word(s: Seq<char>) -> Seq<char> {
    if words(s).len() > 0 {
        words(s).last()
    } else {
        Seq::empty()
    }
}

/// First `:` or ASCII white space at or behind `i`; the length where there is
/// none.
pub open spec fn host_end(s: Seq<char>, i: int) -> int
    decreases s.len() - i,
{
    if !(0 <= i < s.len()) {
        s.len() as int
    } else if s[i] == ':' || ascii_space_char(s[i]) {
        i
    } else {
        host_end(s, i + 1)
    }
}

/// ASCII white space stands in `s[i..]`.
pub open spec fn has_space_from(s: Seq<char>, i: int) -> bool {
    exists|k: int| i <= k < s.len() && ascii_space_char(#[trigger] s[k])
}

/// `user@host` with an optional path, then `#`, `$` or `%` at the end.
pub open spec fn unix_line(line: Seq<char>) -> bool {
    let p = trimmed_end(control_trimmed(line));
    match last_marker(p, '#', '$', '%') {
        Some(m) => m > 0 && m + 1 == p.len() && {
            let body = trimmed_end(p.subrange(0, m));
            match last_marker(body, '@', '@', '@') {
                Some(at) => {
                    let rest = body.subrange(at + 1, body.len() as int);
                    let end = host_end(rest, 0);
                    &&& name(last_word(body.subrange(0, at)))
                    &&& name(rest.subrange(0, end))
                    &&& p[m] != '%' || (end < rest.len() && rest[end] == ':') || has_space_from(
                        rest,
                        end,
                    )
                },
                None => false,
            }
        },
        None => false,
    }
}

/// `body` is `user@host`, cut at its first `@`.
pub open spec fn user_at_host(body: Seq<char>) -> Option<(Seq<char>, Seq<char>)> {
    match first_of(body, '@', '@', 0) {
        Some(at) => Some((body.subrange(0, at), body.subrange(at + 1, body.len() as int))),
        None => None,
    }
}

/// `user@host>` or `user@host%` and nothing else.
pub open spec fn juniper_line(line: Seq<char>) -> bool {
    let p = token(line);
    match last_marker(p, '>', '%', '%') {
        Some(m) => m + 1 == p.len() && match user_at_host(p.subrange(0, m)) {
            Some((user, host)) => name(user) && name(host),
            None => false,
        },
        None => false,
    }
}

/// A host name that Palo Alto firewalls commonly have.
pub open spec fn palo_alto_host(host: Seq<char>) -> bool {
    let h = lowered(host);
    text_starts_with(h, "pa-"@) || text_starts_with(h, "fw-"@) || text_contains(h, "pan"@)
        || text_contains(h, "palo"@)
}

/// A host name that Versa devices commonly have.
pub open spec fn versa_host(host: Seq<char>) -> bool {
    let h = lowered(host);
    text_contains(h, "versa"@) || text_contains(h, "voss"@)
}

pub open spec fn palo_alto_line(line: Seq<char>) -> bool {
    let p = token(line);
    match last_marker(p, '>', '#', '#') {
        Some(m) => match user_at_host(p.subrange(0, m)) {
            Some((user, host)) => palo_alto_host(host) && name(user) && name(host),
            None => false,
        },
        None => false,
    }
}

pub open spec fn versa_line(line: Seq<char>) -> bool {
    let p = token(line);
    match last_marker(p, '>', '#', '#') {
        Some(m) => match user_at_host(p.subrange(0, m)) {
            Some((user, host)) => versa_host(host) && name(user) && name(host),
            None => false,
        },
        None => false,
    }
}

fn is_name(s: &[char]) -> (r: bool)
    ensures
        r == name(s@),
{
    if s.len() == 0 {
        return false;
    }
    let mut k: usize = 0;
    while k < s.len()
        invariant
            k <= s@.len(),
            s@.len() > 0,
            forall|j: int| 0 <= j < k ==> name_char(#[trigger] s@[j]),
        decreases s@.len() - k,
    {
        let c = s[k];
        if !(is_ascii_alnum_char(c) || c == '_' || c == '.' || c == '-') {
            assert(!name_char(s@[k as int]));
            return false;
        }
        k = k + 1;
    }
    true
}

fn is_cisco_name(s: &[char]) -> (r: bool)
    ensures
        r == cisco_name(s@),
{
    if s.len() == 0 {
        return false;
    }
    let mut k: usize = 0;
    while k < s.len()
        invariant
            k <= s@.len(),
            s@.len() > 0,
            forall|j: int| 0 <= j < k ==> cisco_char(#[trigger] s@[j]),
        decreases s@.len() - k,
    {
        let c = s[k];
        if !(is_ascii_alnum_char(c) || c == '_' || c == '.' || c == '-' || c == '(' || c == ')') {
            assert(!cisco_char(s@[k as int]));
            return false;
        }
        k = k + 1;
    }
    true
}

fn is_command(s: &[char]) -> (r: bool)
    ensures
        r == command(s@),
{
    let mut k: usize = 0;
    while k < s.len()
        invariant
            k <= s@.len(),
            forall|j: int| 0 <= j < k ==> command_char(#[trigger] s@[j]),
        decreases s@.len() - k,
    {
        let c = s[k];
        if !(is_ascii_letter_char(c) || c == ' ' || c == '\t') {
            assert(!command_char(s@[k as int]));
            return false;
        }
        k = k + 1;
    }
    true
}

fn trim_controls<'a>(s: &'a [char]) -> (r: &'a [char])
    ensures
        r@ == control_trimmed(s@),
{
    proof {
        lemma_controls(s@);
    }
    let mut start: usize = 0;
    while start < s.len() && is_ascii_control_char(s[start])
        invariant
            start <= s@.len(),
            skip_controls(s@, 0) == skip_controls(s@, start as int),
        decreases s@.len() - start,
    {
        start = start + 1;
    }
    if start >= s.len() {
        let r = vstd::slice::slice_subrange(s, 0, 0);
        assert(r@ =~= Seq::<char>::empty());
        return r;
    }
    let mut end: usize = s.len();
    while end > 0 && is_ascii_control_char(s[end - 1])
        invariant
            end <= s@.len(),
            controls_start(s@, s@.len() as int) == controls_start(s@, end as int),
        decreases end,
    {
        end = end - 1;
    }
    vstd::slice::slice_subrange(s, start, end)
}

fn prompt_token(line: &[char]) -> (r: Vec<char>)
    ensures
        r@ == token(line@),
{
    let found = split_words(line);
    assert(char_views(found@).len() == found@.len());
    if found.len() > 0 {
        assert(words(line@)[0] == found@[0]@);
        vstd::slice::slice_to_vec(trim_controls(found[0].as_slice()))
    } else {
        vstd::slice::slice_to_vec(trim_controls(line))
    }
}

fn find_either(s: &[char], a: char, b: char) -> (r: Option<usize>)
    ensures
        match r {
            Some(m) => first_of(s@, a, b, 0) == Some(m as int) && m < s@.len() <= usize::MAX,
            None => first_of(s@, a, b, 0) is None,
        },
{
    let mut i: usize = 0;
    while i < s.len()
        invariant
            i <= s@.len(),
            first_of(s@, a, b, 0) == first_of(s@, a, b, i as int),
        decreases s@.len() - i,
    {
        if s[i] == a || s[i] == b {
            return Some(i);
        }
        i = i + 1;
    }
    None
}

fn find_last(s: &[char], a: char, b: char, c: char) -> (r: Option<usize>)
    ensures
        match r {
            Some(m) => last_marker(s@, a, b, c) == Some(m as int) && m < s@.len() <= usize::MAX,
            None => last_marker(s@, a, b, c) is None,
        },
{
    let mut end: usize = s.len();
    while end > 0
        invariant
            end <= s@.len(),
            last_marker(s@, a, b, c) == last_of(s@, a, b, c, end as int),
        decreases end,
    {
        let x = s[end - 1];
        if x == a || x == b || x == c {
            return Some(end - 1);
        }
        end = end - 1;
    }
    None
}

fn find_first_pair(s: &[char], a: char, b: char) -> (r: Option<usize>)
    ensures
        match r {
            Some(k) => first_pair(s@, a, b, 0) == Some(k as int) && k + 2 <= s@.len()
                <= usize::MAX,
            None => first_pair(s@, a, b, 0) is None,
        },
{
    let len = s.len();
    if len < 2 {
        return None;
    }
    let mut i: usize = 0;
    while i < len - 1
        invariant
            len == s@.len(),
            len >= 2,
            i <= len - 1,
            first_pair(s@, a, b, 0) == first_pair(s@, a, b, i as int),
        decreases len - i,
    {
        if s[i] == a && s[i + 1] == b {
            return Some(i);
        }
        i = i + 1;
    }
    None
}

fn find_last_pair(s: &[char], a: char, b: char) -> (r: Option<usize>)
    ensures
        match r {
            Some(k) => last_pair(s@, a, b, s@.len() as int) == Some(k as int) && k + 2 <= s@.len(),
            None => last_pair(s@, a, b, s@.len() as int) is None,
        },
{
    let mut end: usize = s.len();
    while end > 1
        invariant
            end <= s@.len(),
            last_pair(s@, a, b, s@.len() as int) == last_pair(s@, a, b, end as int),
        decreases end,
    {
        if s[end - 2] == a && s[end - 1] == b {
            return Some(end - 2);
        }
        end = end - 1;
    }
    None
}

fn part<'a>(s: &'a [char], from: usize, to: usize) -> (r: &'a [char])
    requires
        from <= to <= s@.len(),
    ensures
        r@ == s@.subrange(from as int, to as int),
{
    vstd::slice::slice_subrange(s, from, to)
}

pub fn looks_like_cisco_prompt_line(line: &[char]) -> (r: bool)
    ensures
        r == cisco_line(line@),
{
    let p = prompt_token(line);
    let s = p.as_slice();
    match find_either(s, '>', '#') {
        Some(m) => is_cisco_name(part(s, 0, m)) && is_command(part(s, m + 1, s.len())),
        None => false,
    }
}

fn is_arista_host(host: &[char]) -> (r: bool)
    ensures
        r == arista_host(host@),
{
    let h = to_lower_chars(host);
    chars_contain(h.as_slice(), chars_of("arista").as_slice()) || chars_contain(
        h.as_slice(),
        chars_of("ceos").as_slice(),
    ) || chars_start_with(h.as_slice(), chars_of("eos").as_slice()) || chars_start_with(
        h.as_slice(),
        chars_of("leaf").as_slice(),
    ) || chars_start_with(h.as_slice(), chars_of("spine").as_slice())
}

pub fn looks_like_arista_prompt_line(line: &[char]) -> (r: bool)
    ensures
        r == arista_line(line@),
{
    let p = prompt_token(line);
    let s = p.as_slice();
    match find_last(s, '>', '#', '#') {
        Some(m) => is_arista_host(part(s, 0, m)) && is_name(part(s, 0, m)) && is_command(
            part(s, m + 1, s.len()),
        ),
        None => false,
    }
}

fn fortinet_prompt_host<'a>(host: &'a [char]) -> (r: &'a [char])
    ensures
        r@ == fortinet_host(host@),
{
    if host.len() == 0 || host[host.len() - 1] != ')' {
        return host;
    }
    match find_last_pair(host, ' ', '(') {
        Some(k) => trim_end(part(host, 0, k)),
        None => host,
    }
}

pub fn looks_like_fortinet_prompt_line(line: &[char]) -> (r: bool)
    ensures
        r == fortinet_line(line@),
{
    let t = trim_controls(line);
    match find_first_pair(t, ' ', '#') {
        Some(k) => {
            let rest = part(t, k + 2, t.len());
            is_name(fortinet_prompt_host(trim_end(part(t, 0, k)))) && (rest.len() == 0
                || is_ascii_space_char(rest[0]) || is_ascii_letter_char(rest[0]))
        },
        None => false,
    }
}

fn last_word_of(s: &[char]) -> (r: Vec<char>)
    ensures
        r@ == last_word(s@),
{
    let found = split_words(s);
    assert(char_views(found@).len() == found@.len());
    if found.len() > 0 {
        assert(words(s@).last() == found@[found@.len() - 1]@);
        let last = found[found.len() - 1].as_slice();
        vstd::slice::slice_to_vec(last)
    } else {
        let none: Vec<char> = Vec::new();
        assert(none@ =~= Seq::<char>::empty());
        none
    }
}

fn find_host_end(s: &[char]) -> (r: usize)
    ensures
        r == host_end(s@, 0),
        r <= s@.len(),
{
    let mut i: usize = 0;
    while i < s.len()
        invariant
            i <= s@.len(),
            host_end(s@, 0) == host_end(s@, i as int),
        decreases s@.len() - i,
    {
        if s[i] == ':' || is_ascii_space_char(s[i]) {
            return i;
        }
        i = i + 1;
    }
    i
}

fn contains_space(s: &[char], from: usize) -> (r: bool)
    ensures
        r == has_space_from(s@, from as int),
{
    let mut i: usize = from;
    while i < s.len()
        invariant
            from <= i,
            forall|k: int| from <= k < i && k < s@.len() ==> !ascii_space_char(#[trigger] s@[k]),
        decreases s@.len() - i,
    {
        if is_ascii_space_char(s[i]) {
            assert(ascii_space_char(s@[i as int]));
            return true;
        }
        i = i + 1;
    }
    false
}

pub fn looks_like_unix_prompt_line(line: &[char]) -> (r: bool)
    ensures
        r == unix_line(line@),
{
    let p = trim_end(trim_controls(line));
    let m = match find_last(p, '#', '$', '%') {
        Some(m) => m,
        None => return false,
    };
    if m == 0 || m + 1 != p.len() {
        return false;
    }
    let body = trim_end(part(p, 0, m));
    let at = match find_last(body, '@', '@', '@') {
        Some(at) => at,
        None => return false,
    };
    let rest = part(body, at + 1, body.len());
    let end = find_host_end(rest);
    is_name(last_word_of(part(body, 0, at)).as_slice()) && is_name(part(rest, 0, end)) && (p[m]
        != '%' || (end < rest.len() && rest[end] == ':') || contains_space(rest, end))
}

pub fn looks_like_juniper_prompt_line(line: &[char]) -> (r: bool)
    ensures
        r == juniper_line(line@),
{
    let p = prompt_token(line);
    let s = p.as_slice();
    let m = match find_last(s, '>', '%', '%') {
        Some(m) => m,
        None => return false,
    };
    if m + 1 != s.len() {
        return false;
    }
    let body = part(s, 0, m);
    match find_either(body, '@', '@') {
        Some(at) => is_name(part(body, 0, at)) && is_name(part(body, at + 1, body.len())),
        None => false,
    }
}

fn is_palo_alto_host(host: &[char]) -> (r: bool)
    ensures
        r == palo_alto_host(host@),
{
    let h = to_lower_chars(host);
    chars_start_with(h.as_slice(), chars_of("pa-").as_slice()) || chars_start_with(
        h.as_slice(),
        chars_of("fw-").as_slice(),
    ) || chars_contain(h.as_slice(), chars_of("pan").as_slice()) || chars_contain(
        h.as_slice(),
        chars_of("palo").as_slice(),
    )
}

fn is_versa_host(host: &[char]) -> (r: bool)
    ensures
        r == versa_host(host@),
{
    let h = to_lower_chars(host);
    chars_contain(h.as_slice(), chars_of("versa").as_slice()) || chars_contain(
        h.as_slice(),
        chars_of("voss").as_slice(),
    )
}

pub fn looks_like_palo_alto_prompt_line(line: &[char]) -> (r: bool)
    ensures
        r == palo_alto_line(line@),
{
    let p = prompt_token(line);
    let s = p.as_slice();
    let m = match find_last(s, '>', '#', '#') {
        Some(m) => m,
        None => return false,
    };
    let body = part(s, 0, m);
    match find_either(body, '@', '@') {
        Some(at) => {
            let host = part(body, at + 1, body.len());
            is_palo_alto_host(host) && is_name(part(body, 0, at)) && is_name(host)
        },
        None => false,
    }
}

pub fn looks_like_versa_prompt_line(line: &[char]) -> (r: bool)
    ensures
        r == versa_line(line@),
{
    let p = prompt_token(line);
    let s = p.as_slice();
    let m = match find_last(s, '>', '#', '#') {
        Some(m) => m,
        None => return false,
    };
    let body = part(s, 0, m);
    match find_either(body, '@', '@') {
        Some(at) => {
            let host = part(body, at + 1, body.len());
            is_versa_host(host) && is_name(part(body, 0, at)) && is_name(host)
        },
        None => false,
    }
}

/// Which prompts a profile has.
#[derive(Clone, Copy, Debug, PartialEq, Eq, Structural)]
pub enum PromptMatcherKind {
    NoPrompt,
    JunosUserAtHost,
    CiscoHostMarker,
    AristaHostMarker,
    FortinetHostHash,
    UnixUserAtHostPath,
    PaloAltoUserAtHost,
    VersaUserAtHost,
}

impl PromptMatcherKind {
    /// The line is a prompt of this kind.
    pub open spec fn line(self, line: Seq<char>) -> bool {
        match self {
            PromptMatcherKind::NoPrompt => false,
            PromptMatcherKind::JunosUserAtHost => juniper_line(line),
            PromptMatcherKind::CiscoHostMarker => cisco_line(line),
            PromptMatcherKind::AristaHostMarker => arista_line(line),
            PromptMatcherKind::FortinetHostHash => fortinet_line(line),
            PromptMatcherKind::UnixUserAtHostPath => unix_line(line),
            PromptMatcherKind::PaloAltoUserAtHost => palo_alto_line(line),
            PromptMatcherKind::VersaUserAtHost => versa_line(line),
        }
    }

    /// Some line of the text is a prompt of this kind.
    pub open spec fn text(self, text: Seq<char>) -> bool {
        exists|k: int| 0 <= k < lines(text).len() && self.line(#[trigger] lines(text)[k])
    }

    fn matches_line(self, line: &[char]) -> (r: bool)
        ensures
            r == self.line(line@),
    {
        match self {
            PromptMatcherKind::NoPrompt => false,
            PromptMatcherKind::JunosUserAtHost => looks_like_juniper_prompt_line(line),
            PromptMatcherKind::CiscoHostMarker => looks_like_cisco_prompt_line(line),
            PromptMatcherKind::AristaHostMarker => looks_like_arista_prompt_line(line),
            PromptMatcherKind::FortinetHostHash => looks_like_fortinet_prompt_line(line),
            PromptMatcherKind::UnixUserAtHostPath => looks_like_unix_prompt_line(line),
            PromptMatcherKind::PaloAltoUserAtHost => looks_like_palo_alto_prompt_line(line),
            PromptMatcherKind::VersaUserAtHost => looks_like_versa_prompt_line(line),
        }
    }

    /// Whether a prompt of this kind stands in the text.
    pub fn matches(self, text: &[char]) -> (r: bool)
        ensures
            r == self.text(text@),
    {
        let found = split_lines(text);
        let ghost all = lines(text@);
        assert(char_views(found@).len() == found@.len());
        let mut i: usize = 0;
        while i < found.len()
            invariant
                i <= found@.len(),
                all == lines(text@),
                char_views(found@) == all,
                all.len() == found@.len(),
                forall|k: int| 0 <= k < i ==> !self.line(#[trigger] all[k]),
            decreases found@.len() - i,
        {
            assert(all[i as int] == found@[i as int]@);
            if self.matches_line(found[i].as_slice()) {
                return true;
            }
            i = i + 1;
        }
        false
    }
}

} // verus!
