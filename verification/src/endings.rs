//! Laws about the lines that end remote sessions and about those that tell
//! that a session did not come about.

use vstd::prelude::*;

use crate::logins::{lemma_ascii_len, lemma_one_line};
use crate::profile_runtime::RuntimeModel;
use crate::profiles::ProfileView;
use crate::remote::{
    failure_line, marker_fits, marker_of, markers_of, open_failure, CloseMarkerKind, ClosePolicy,
    MarkerView,
};
use crate::style_text::with_capitals;
use crate::text::{
    lines, lowered, skip_space, space_start, text_contains, text_ends_with, text_starts_with,
    trimmed, whitespace,
};
use crate::window::{lines_end, recent, recent_lines};

verus! {

/// The lines, in small letters, that end a session without naming a host.
pub open spec fn ends_session(line: Seq<char>, kind: CloseMarkerKind) -> bool {
    match kind {
        CloseMarkerKind::Logout => line == "logout"@,
        CloseMarkerKind::SshLike => line == "connection closed"@ || line == "connection closed."@
            || line == "connection closed by remote host"@ || line
            == "connection closed by remote host."@,
        CloseMarkerKind::Telnet => line == "connection closed by foreign host"@ || line
            == "connection closed by foreign host."@,
        CloseMarkerKind::Screen => line == "[screen is terminating]"@ || (text_starts_with(
            line,
            "[detached from "@,
        ) && text_ends_with(line, "]"@)),
        CloseMarkerKind::Serial => line == "disconnected"@ || line == "disconnected."@ || line
            == "leaving minicom.."@ || line == "terminating..."@ || line
            == "thanks for using picocom"@,
    }
}

/// The line names the host whose session ended.
pub open spec fn names_closed_host(line: Seq<char>) -> bool {
    text_starts_with(line, "connection to "@) && (text_ends_with(line, " closed"@)
        || text_ends_with(line, " closed."@) || text_ends_with(line, " closed by remote host"@)
        || text_ends_with(line, " closed by remote host."@))
}

proof fn lemma_marks()
    ensures
        "logout"@.len() == 6,
        "logout"@[0] == 'l',
        "connection to "@.len() == 14,
        "connection to "@[0] == 'c',
        "connection to "@[11] == 't',
        "connection closed"@.len() == 17,
        "connection closed"@[11] == 'c',
        "connection closed."@.len() == 18,
        "connection closed."@[11] == 'c',
        "connection closed by remote host"@.len() == 32,
        "connection closed by remote host"@[11] == 'c',
        "connection closed by remote host"@[21] == 'r',
        "connection closed by remote host."@.len() == 33,
        "connection closed by remote host."@[11] == 'c',
        "connection closed by remote host."@[21] == 'r',
        "connection closed by foreign host"@.len() == 33,
        "connection closed by foreign host"@[0] == 'c',
        "connection closed by foreign host"@[11] == 'c',
        "connection closed by foreign host"@[21] == 'f',
        "connection closed by foreign host."@.len() == 34,
        "connection closed by foreign host."@[0] == 'c',
        "connection closed by foreign host."@[11] == 'c',
        "[screen is terminating]"@.len() == 23,
        "[screen is terminating]"@[0] == '[',
        "[detached from "@.len() == 15,
        "[detached from "@[0] == '[',
        "]"@.len() == 1,
        "]"@[0] == ']',
        "connection closed"@[0] == 'c',
        "connection closed."@[0] == 'c',
        "connection closed by remote host"@[0] == 'c',
        "connection closed by remote host."@[0] == 'c',
        "disconnected"@.len() == 12,
        "disconnected"@[0] == 'd',
        "disconnected."@[0] == 'd',
        "leaving minicom.."@.len() == 17,
        "leaving minicom.."@[0] == 'l',
        "leaving minicom.."@[1] == 'e',
        "logout"@[1] == 'o',
        "terminating..."@[0] == 't',
        "thanks for using picocom"@[0] == 't',
{
    reveal_strlit("logout");
    reveal_strlit("connection to ");
    reveal_strlit("connection closed");
    reveal_strlit("connection closed.");
    reveal_strlit("connection closed by remote host");
    reveal_strlit("connection closed by remote host.");
    reveal_strlit("connection closed by foreign host");
    reveal_strlit("connection closed by foreign host.");
    reveal_strlit("[screen is terminating]");
    reveal_strlit("[detached from ");
    reveal_strlit("]");
    reveal_strlit("disconnected");
    reveal_strlit("disconnected.");
    reveal_strlit("leaving minicom..");
    reveal_strlit("terminating...");
    reveal_strlit("thanks for using picocom");
}

/// Each of these lines ends a session of its kind and names no host, and no
/// other lines end sessions but those that name one.
#[verifier::rlimit(40)]
pub proof fn lines_end_sessions_of_their_kind(line: Seq<char>, kind: CloseMarkerKind)
    ensures
        ends_session(line, kind) ==> marker_of(line) == Some(MarkerView { kind, target: None }),
        marker_of(line) matches Some(m) ==> ends_session(line, m.kind) && m.target is None
            || names_closed_host(line) && m.kind == CloseMarkerKind::SshLike && m.target is Some,
{
    lemma_marks();
    let open = "connection to "@;
    if text_starts_with(line, open) {
        assert(line.subrange(0, 14)[11] == line[11]);
        assert(line.subrange(0, 14)[0] == line[0]);
        let rest = line.skip(14);
        let a = " closed by remote host."@;
        let b = " closed by remote host"@;
        let c = " closed."@;
        let d = " closed"@;
        lemma_same_end(line, a);
        lemma_same_end(line, b);
        lemma_same_end(line, c);
        lemma_same_end(line, d);
    }
    if text_starts_with(line, "[detached from "@) {
        assert(line.subrange(0, 15)[0] == line[0]);
    }
}

proof fn lemma_same_end(line: Seq<char>, end: Seq<char>)
    requires
        line.len() >= 14,
    ensures
        text_ends_with(line.skip(14), end) ==> text_ends_with(line, end),
{
    let rest = line.skip(14);
    if text_ends_with(rest, end) {
        assert(rest.subrange(rest.len() - end.len(), rest.len() as int) =~= line.subrange(
            line.len() - end.len(),
            line.len() as int,
        ));
    }
}

/// A line of output: ASCII, not too long, with nothing around it.
pub open spec fn short_line(line: Seq<char>) -> bool {
    &&& 0 < line.len() <= 200
    &&& !whitespace(line[0])
    &&& !whitespace(line.last())
    &&& forall|k: int|
        0 <= k < line.len() ==> 0 <= (#[trigger] line[k] as int) < 0x80 && line[k] != '\n'
            && line[k] != '\r' && !('A' <= line[k] <= 'Z')
}

/// What a runtime that has seen nothing else makes of a line of output.
proof fn lemma_line_seen(m: RuntimeModel, line: Seq<char>, shown: Seq<char>)
    requires
        m.window.len() == 0,
        short_line(line),
        with_capitals(line, shown),
    ensures
        ({
            let seen = m.with_output(shown + seq!['\r', '\n']);
            &&& lines(lowered(seen.window)) == seq![line]
            &&& trimmed(line) == line
            &&& seen.markers() == match marker_of(line) {
                Some(x) => seq![x],
                None => Seq::empty(),
            }
        }),
{
    let text = shown + seq!['\r', '\n'];
    let low = lowered(text);
    assert forall|k: int| 0 <= k < text.len() implies 0 <= (#[trigger] text[k] as int) < 0x80 by {
        if k < shown.len() {
            assert(text[k] == shown[k]);
            assert(0 <= (line[k] as int) < 0x80);
        }
    }
    lemma_ascii_len(text);
    assert(m.window + text =~= text);
    assert(recent(text, 65536) == text);
    assert(low =~= line + seq!['\r', '\n']) by {
        assert forall|k: int| 0 <= k < low.len() implies low[k] == (line + seq!['\r', '\n'])[k] by {
            if k < line.len() {
                assert(text[k] == shown[k]);
                assert(!('A' <= line[k] <= 'Z'));
                assert(shown[k] == line[k] || ('a' <= line[k] <= 'z' && shown[k] as int
                    == line[k] as int - 32));
            }
        }
    }
    let n = low.len() as int;
    assert(low[n - 1] == '\n');
    assert(lines_end(low, n) == n);
    assert(low.take(n) =~= low);
    assert(recent(low, 256) == low);
    assert(recent_lines(low, 256) == low);
    lemma_one_line(line);
    assert(skip_space(line, 0) == 0);
    assert(space_start(line, line.len() as int) == line.len());
    assert(trimmed(line) =~= line);
    let ls = seq![line];
    assert(ls.drop_last() =~= Seq::<Seq<char>>::empty());
    assert(ls.last() == line);
    assert(markers_of(ls.drop_last()) =~= Seq::<MarkerView>::empty());
    if let Some(x) = marker_of(line) {
        assert(Seq::<MarkerView>::empty().push(x) =~= seq![x]);
    }
}

/// Where the innermost session is of its kind, such a line leads back to the
/// profiles of the session around it. A logout ends a session of any kind.
pub proof fn endings_go_back_to_the_session_around(
    m: RuntimeModel,
    line: Seq<char>,
    shown: Seq<char>,
    kind: CloseMarkerKind,
    profiles: Seq<ProfileView>,
)
    requires
        m.window.len() == 0,
        m.nesting.pending is None,
        m.nesting.stack.len() > 0,
        short_line(line),
        with_capitals(line, shown),
        ends_session(line, kind),
        match m.nesting.stack.last().policy {
            ClosePolicy::SshLike => kind is SshLike || kind is Logout,
            ClosePolicy::Telnet => kind is Telnet || kind is Logout,
            ClosePolicy::Screen => kind is Screen || kind is Logout,
            ClosePolicy::Serial => kind is Serial || kind is Logout,
            ClosePolicy::Generic => true,
        },
    ensures
        ({
            let (after, proposed) = m.after_output(shown + seq!['\r', '\n'], profiles);
            let around = m.nesting.stack.last().profiles;
            &&& after.nesting.active == around
            &&& after.nesting.stack == m.nesting.stack.drop_last()
            &&& around != m.nesting.active ==> proposed == Some(around)
            &&& around == m.nesting.active ==> proposed is None
        }),
{
    let start = RuntimeModel { rollback: None, ..m };
    let text = shown + seq!['\r', '\n'];
    lemma_line_seen(start, line, shown);
    lines_end_sessions_of_their_kind(line, kind);
    let w = start.with_output(text);
    let ms = w.markers();
    assert(ms[0] == MarkerView { kind, target: None });
    assert(marker_fits(ms[0], w.nesting.stack.last().policy, w.nesting.stack.last().target));
    assert(w.nesting.top_closed(ms));
    assert(!w.nesting.pending_closed(ms));
    assert(text.len() > 0);
}

/// The lines, in small letters, that tell that a session did not come about.
pub open spec fn tells_failure(line: Seq<char>, policy: ClosePolicy) -> bool {
    match policy {
        ClosePolicy::SshLike => {
            ||| line == "host key verification failed."@
            ||| line == "warning: remote host identification has changed!"@
            ||| line == "kex_exchange_identification: read: connection reset by peer"@
            ||| line == "kex_exchange_identification: connection reset by peer"@
            ||| text_starts_with(line, "ssh: could not resolve hostname "@)
            ||| text_ends_with(line, ")."@) && (text_contains(line, ": permission denied ("@)
                || text_starts_with(line, "permission denied ("@))
            ||| text_starts_with(line, "ssh: connect to host "@) && (text_ends_with(
                line,
                "connection refused"@,
            ) || text_ends_with(line, "connection timed out"@) || text_ends_with(
                line,
                "operation timed out"@,
            ) || text_ends_with(line, "network is unreachable"@) || text_ends_with(
                line,
                "no route to host"@,
            ))
        },
        ClosePolicy::Telnet => text_starts_with(
            line,
            "telnet: unable to connect to remote host:"@,
        ) || text_starts_with(line, "telnet: could not resolve "@),
        ClosePolicy::Screen => text_starts_with(line, "cannot open your terminal"@)
            || text_starts_with(line, "cannot exec "@),
        ClosePolicy::Serial => text_starts_with(line, "fatal: cannot open "@) || text_starts_with(
            line,
            "minicom: cannot open "@,
        ) || text_starts_with(line, "cu: open ("@),
        ClosePolicy::Generic => false,
    }
}

/// A session that was asked for is given up when such a line tells that it did
/// not come about. The profiles stay, and so do the sessions around.
pub proof fn failed_sessions_are_given_up(
    m: RuntimeModel,
    line: Seq<char>,
    shown: Seq<char>,
    profiles: Seq<ProfileView>,
)
    requires
        m.window.len() == 0,
        m.nesting.pending is Some,
        m.nesting.stack.len() == 0 || !(ends_session(line, CloseMarkerKind::Logout) || ends_session(
            line,
            CloseMarkerKind::SshLike,
        ) || ends_session(line, CloseMarkerKind::Telnet) || ends_session(
            line,
            CloseMarkerKind::Screen,
        ) || ends_session(line, CloseMarkerKind::Serial) || names_closed_host(line)),
        short_line(line),
        with_capitals(line, shown),
        tells_failure(line, m.nesting.pending->Some_0.policy),
    ensures
        ({
            let (after, proposed) = m.after_output(shown + seq!['\r', '\n'], profiles);
            &&& after.nesting.pending is None
            &&& after.nesting.active == m.nesting.active
            &&& after.nesting.stack == m.nesting.stack
            &&& proposed is None
        }),
{
    let start = RuntimeModel { rollback: None, ..m };
    let text = shown + seq!['\r', '\n'];
    lemma_line_seen(start, line, shown);
    lines_end_sessions_of_their_kind(line, CloseMarkerKind::Logout);
    let w = start.with_output(text);
    let policy = m.nesting.pending->Some_0.policy;
    assert(lines(lowered(w.window))[0] == line);
    assert(failure_line(trimmed(lines(lowered(w.window))[0]), policy));
    assert(open_failure(lowered(w.window), policy));
    assert(w.failed_to_open());
    if marker_of(line) is Some {
        let kind = marker_of(line)->Some_0.kind;
        assert(m.nesting.stack.len() == 0);
    }
    assert(text.len() > 0);
}

} // verus!
