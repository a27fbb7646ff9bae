//! Laws about how a session changes its profile: at once behind a banner,
//! behind prompts as often as the profile asks for, and not by mistyped keys.

use vstd::prelude::*;

use crate::profile_runtime::{frame_with, pair_with_generic, FrameView, Nesting, RuntimeModel};
use crate::profiles::{
    comes_before, detected, detection_is_unique, is_detection, lemma_comes_before, lookup,
    ProfileView,
};
use crate::remote::{attempt_of, AttemptView};
use crate::selection::{all_local, chosen, eligible, is_choice, is_local, specific, Evidence};
use crate::signals::{some_signal, PromptConfidence};
use crate::text::{space_start, trimmed_end, whitespace};

verus! {

/// The generic profile and one other.
pub open spec fn with_generic(name: Seq<char>) -> Seq<Seq<char>> {
    seq![seq!['g', 'e', 'n', 'e', 'r', 'i', 'c'], name]
}

proof fn lemma_pick(
    profiles: Seq<ProfileView>,
    names: Seq<Seq<char>>,
    evidence: Evidence,
    text: Seq<char>,
    active: Option<Seq<char>>,
) -> (r: Option<Seq<char>>)
    ensures
        is_choice(profiles, names, evidence, text, active, r),
    decreases names.len(),
{
    if names.len() == 0 {
        None
    } else {
        let rest = names.drop_last();
        let x = names.last();
        let before = lemma_pick(profiles, rest, evidence, text, active);
        assert forall|k: int| 0 <= k < rest.len() implies #[trigger] rest[k] == names[k] by {}
        if let Some(y) = before {
            let i = choose|i: int| 0 <= i < rest.len() && rest[i] == y;
            assert(names[i] == y);
        }
        assert(names[names.len() - 1] == x);
        if !eligible(profiles, evidence, text, active, x) {
            assert forall|k: int| 0 <= k < names.len() && eligible(
                profiles,
                evidence,
                text,
                active,
                #[trigger] names[k],
            ) implies k < rest.len() && eligible(profiles, evidence, text, active, rest[k]) by {}
            before
        } else {
            let r = match before {
                Some(y) => if comes_before(profiles, x, y) {
                    Some(x)
                } else {
                    Some(y)
                },
                None => Some(x),
            };
            assert forall|k: int| 0 <= k < names.len() && eligible(
                profiles,
                evidence,
                text,
                active,
                #[trigger] names[k],
            ) implies !comes_before(profiles, names[k], r->Some_0) by {
                if k < rest.len() {
                    assert(eligible(profiles, evidence, text, active, rest[k]));
                    lemma_comes_before(profiles, names[k], x, before->Some_0);
                } else {
                    lemma_comes_before(profiles, x, x, x);
                }
            }
            r
        }
    }
}

proof fn lemma_chosen(
    profiles: Seq<ProfileView>,
    names: Seq<Seq<char>>,
    evidence: Evidence,
    text: Seq<char>,
    active: Option<Seq<char>>,
)
    ensures
        is_choice(
            profiles,
            names,
            evidence,
            text,
            active,
            chosen(profiles, names, evidence, text, active),
        ),
{
    let r = lemma_pick(profiles, names, evidence, text, active);
}

/// What is active and specific is among the active profiles.
proof fn lemma_specific_is_active(
    profiles: Seq<ProfileView>,
    active: Seq<Seq<char>>,
    name: Seq<char>,
)
    requires
        !active.contains(name),
    ensures
        specific(profiles, active) != Some(name),
{
    lemma_chosen(profiles, active, Evidence::Name, Seq::empty(), None);
}

/// The only one that is eligible is chosen.
proof fn lemma_only_one(
    profiles: Seq<ProfileView>,
    names: Seq<Seq<char>>,
    evidence: Evidence,
    text: Seq<char>,
    active: Option<Seq<char>>,
    name: Seq<char>,
)
    requires
        names.contains(name),
        eligible(profiles, evidence, text, active, name),
        forall|x: Seq<char>|
            #![trigger names.contains(x)]
            names.contains(x) && eligible(profiles, evidence, text, active, x) ==> x == name,
    ensures
        chosen(profiles, names, evidence, text, active) == Some(name),
{
    lemma_chosen(profiles, names, evidence, text, active);
    let r = chosen(profiles, names, evidence, text, active);
    let i = choose|i: int| 0 <= i < names.len() && names[i] == name;
    assert(eligible(profiles, evidence, text, active, names[i]));
    assert(names.contains(r->Some_0));
}

proof fn lemma_none(
    profiles: Seq<ProfileView>,
    names: Seq<Seq<char>>,
    evidence: Evidence,
    text: Seq<char>,
    active: Option<Seq<char>>,
)
    requires
        forall|x: Seq<char>|
            #![trigger names.contains(x)]
            names.contains(x) ==> !eligible(profiles, evidence, text, active, x),
    ensures
        chosen(profiles, names, evidence, text, active) is None,
{
    lemma_chosen(profiles, names, evidence, text, active);
    if let Some(x) = chosen(profiles, names, evidence, text, active) {
        assert(names.contains(x));
    }
}

/// Output comes that ends no session and that names no failure of one.
pub open spec fn goes_on(m: RuntimeModel, text: Seq<char>) -> bool {
    let seen = m.with_output(text);
    &&& !m.nesting.top_closed_by_name(seen.markers())
    &&& !m.nesting.top_closed(seen.markers())
    &&& !m.nesting.pending_closed(seen.markers())
    &&& !seen.failed_to_open()
}

proof fn lemma_names(
    profiles: Seq<ProfileView>,
    text: Seq<char>,
    names: Seq<Seq<char>>,
    p: ProfileView,
)
    requires
        is_detection(profiles, text, names),
        lookup(profiles, p.name) == Some(p),
        p.name != seq!['g', 'e', 'n', 'e', 'r', 'i', 'c'],
        p.told_by(text),
    ensures
        names.contains(p.name),
        names.len() > 1,
        names == detected(profiles, text),
        seq!['g', 'e', 'n', 'e', 'r', 'i', 'c'] == "generic"@,
{
    reveal_strlit("generic");
    assert("generic"@ =~= seq!['g', 'e', 'n', 'e', 'r', 'i', 'c']);
    assert(names.skip(1).contains(p.name));
    let k = choose|k: int| 0 <= k < names.skip(1).len() && names.skip(1)[k] == p.name;
    assert(names[k + 1] == p.name);
    detection_is_unique(profiles, text, names, detected(profiles, text));
}

proof fn lemma_not_all_local(profiles: Seq<ProfileView>, names: Seq<Seq<char>>, p: ProfileView)
    requires
        names.contains(p.name),
        lookup(profiles, p.name) == Some(p),
        !p.runtime.local_baseline,
    ensures
        !all_local(profiles, names),
{
    let k = choose|k: int| 0 <= k < names.len() && names[k] == p.name;
    assert(!is_local(profiles, names[k]));
}

/// The banner of one profile, in a whole line of output, changes to that
/// profile. A remote session that was asked for is nested in the one before.
/// Else a profile of a session further out ends the sessions in between.
#[verifier::rlimit(40)]
pub proof fn banners_change_the_profile(
    m: RuntimeModel,
    text: Seq<char>,
    profiles: Seq<ProfileView>,
    p: ProfileView,
    names: Seq<Seq<char>>,
    k: int,
    i: int,
)
    requires
        m.nesting.locked || !p.runtime.local_baseline,
        goes_on(m, text),
        0 <= k < text.len(),
        text[k] == '\n',
        lookup(profiles, p.name) == Some(p),
        p.name != seq!['g', 'e', 'n', 'e', 'r', 'i', 'c'],
        !m.nesting.active.contains(p.name),
        some_signal(p.runtime.strong_signals, m.with_output(text).window),
        forall|x: Seq<char>|
            #![trigger lookup(profiles, x)]
            lookup(profiles, x) matches Some(q) ==> (some_signal(
                q.runtime.strong_signals,
                m.with_output(text).window,
            ) ==> x == p.name),
        is_detection(profiles, m.with_output(text).window, names),
    ensures
        ({
            let (after, proposed) = m.after_output(text, profiles);
            &&& after.nesting.active == with_generic(p.name)
            &&& proposed == Some(with_generic(p.name))
            &&& after.nesting.pending is None
            &&& after.nesting.baseline == m.nesting.baseline
            &&& m.nesting.stack.len() < 8 ==> (m.nesting.pending matches Some(a)
                ==> after.nesting.stack == m.nesting.stack.push(
                FrameView {
                    profiles: m.nesting.active,
                    policy: a.policy,
                    target: a.target,
                    unresolved: false,
                },
            ))
            &&& m.nesting.pending is None && 0 <= i < m.nesting.stack.len()
                && m.nesting.stack[i].profiles == with_generic(p.name) && (forall|j: int|
                0 <= j < i ==> #[trigger] m.nesting.stack[j].profiles != with_generic(p.name))
                ==> after.nesting.stack == m.nesting.stack.take(i)
        }),
{
    let start = RuntimeModel { rollback: None, ..m };
    let seen = start.with_output(text);
    let w = seen.window;
    assert(w == m.with_output(text).window);
    assert(seen.markers() == m.with_output(text).markers());
    reveal_strlit("generic");
    assert("generic"@ =~= seq!['g', 'e', 'n', 'e', 'r', 'i', 'c']);
    lemma_names(profiles, w, names, p);
    let active = specific(profiles, m.nesting.active);
    lemma_specific_is_active(profiles, m.nesting.active, p.name);
    assert forall|x: Seq<char>| #![trigger names.contains(x)]
        names.contains(x) && eligible(profiles, Evidence::Signal, w, active, x) implies x == p.name by {
        assert(lookup(profiles, x) is Some);
    }
    lemma_only_one(profiles, names, Evidence::Signal, w, active, p.name);
    assert(names != m.nesting.active);
    if !m.nesting.locked {
        lemma_not_all_local(profiles, names, p);
    }
    let pair = with_generic(p.name);
    assert(pair_with_generic(p.name) =~= pair);
    assert(pair != m.nesting.active) by {
        if pair == m.nesting.active {
            assert(m.nesting.active[1] == p.name);
        }
    }
    let n = RuntimeModel { since: 0, ..seen }.given_up().nesting.resolved();
    if 0 <= i < m.nesting.stack.len() && m.nesting.stack[i].profiles == pair && (forall|j: int|
        0 <= j < i ==> #[trigger] m.nesting.stack[j].profiles != pair) {
        lemma_first_frame(n.stack, pair, 0, i, m.nesting.stack);
        assert(n.stack.take(i) =~= m.nesting.stack.take(i));
    }
    assert(seen.detects(text));
    assert(text.len() > 0);
}

proof fn lemma_first_frame(
    stack: Seq<FrameView>,
    profiles: Seq<Seq<char>>,
    from: int,
    i: int,
    before: Seq<FrameView>,
)
    requires
        0 <= from <= i < stack.len(),
        stack.len() == before.len(),
        forall|j: int| 0 <= j < stack.len() ==> #[trigger] stack[j].profiles == before[j].profiles,
        before[i].profiles == profiles,
        forall|j: int| 0 <= j < i ==> #[trigger] before[j].profiles != profiles,
    ensures
        frame_with(stack, profiles, from) == Some(i),
    decreases i - from,
{
    assert(stack[from].profiles == before[from].profiles);
    if from < i {
        lemma_first_frame(stack, profiles, from + 1, i, before);
    }
}

/// Where only a prompt speaks for a profile, and a remote session was asked for
/// or the local shell is in front, a profile that asks for no more changes at
/// once; any other only when the same prompt comes again.
#[verifier::rlimit(40)]
pub proof fn prompts_change_the_profile_as_often_as_asked(
    m: RuntimeModel,
    text: Seq<char>,
    profiles: Seq<ProfileView>,
    p: ProfileView,
    names: Seq<Seq<char>>,
    k: int,
)
    requires
        m.wf(),
        m.nesting.locked || !p.runtime.local_baseline,
        goes_on(m, text),
        0 <= k < text.len(),
        text[k] == '\n',
        lookup(profiles, p.name) == Some(p),
        p.name != seq!['g', 'e', 'n', 'e', 'r', 'i', 'c'],
        !m.nesting.active.contains(p.name),
        forall|x: Seq<char>|
            #![trigger lookup(profiles, x)]
            lookup(profiles, x) matches Some(q) ==> !some_signal(
                q.runtime.strong_signals,
                m.with_output(text).window,
            ),
        p.told_by(m.with_output(text).window),
        p.runtime.runtime_prompt.text(m.with_output(text).window),
        forall|x: Seq<char>|
            #![trigger lookup(profiles, x)]
            lookup(profiles, x) matches Some(q) ==> (q.runtime.runtime_prompt.text(
                m.with_output(text).window,
            ) ==> x == p.name),
        is_detection(profiles, m.with_output(text).window, names),
        m.nesting.pending is Some || m.nesting.at_local_baseline(profiles),
    ensures
        ({
            let (after, proposed) = m.after_output(text, profiles);
            let pair = with_generic(p.name);
            let again = m.nesting.prompt == Some(pair) && m.nesting.hits == 1;
            let enough = again || match p.runtime.prompt_confidence {
                PromptConfidence::Repeated => false,
                PromptConfidence::SingleAfterRemoteHint => m.nesting.pending is Some,
                PromptConfidence::SingleFromBaselineOrRemoteHint => true,
            };
            if enough {
                after.nesting.active == pair && proposed == Some(pair)
            } else {
                after.nesting.active == m.nesting.active && proposed is None
                    && after.nesting.stack == m.nesting.stack && after.nesting.prompt == Some(pair)
                    && after.nesting.hits == 1 && after.nesting.pending == m.nesting.pending
            }
        }),
{
    let start = RuntimeModel { rollback: None, ..m };
    let seen = start.with_output(text);
    let w = seen.window;
    assert(w == m.with_output(text).window);
    assert(seen.markers() == m.with_output(text).markers());
    lemma_names(profiles, w, names, p);
    let active = specific(profiles, m.nesting.active);
    lemma_specific_is_active(profiles, m.nesting.active, p.name);
    assert forall|x: Seq<char>| #![trigger names.contains(x)] names.contains(x) implies !eligible(
        profiles,
        Evidence::Signal,
        w,
        active,
        x,
    ) by {
        if lookup(profiles, x) is Some {
            assert(!some_signal(lookup(profiles, x)->Some_0.runtime.strong_signals, w));
        }
    }
    lemma_none(profiles, names, Evidence::Signal, w, active);
    assert forall|x: Seq<char>| #![trigger names.contains(x)]
        names.contains(x) && eligible(profiles, Evidence::Prompt, w, active, x) implies x == p.name by {
        assert(lookup(profiles, x) is Some);
    }
    lemma_only_one(profiles, names, Evidence::Prompt, w, active, p.name);
    assert(names != m.nesting.active);
    if !m.nesting.locked {
        lemma_not_all_local(profiles, names, p);
    }
    let pair = with_generic(p.name);
    assert(pair_with_generic(p.name) =~= pair);
    assert(pair != m.nesting.active) by {
        if pair == m.nesting.active {
            assert(m.nesting.active[1] == p.name);
        }
    }
    assert(seen.detects(text));
    assert(text.len() > 0);
}

/// A key that is taken back leaves the line as it was: a printable character,
/// and then delete or backspace.
pub proof fn keys_can_be_taken_back(m: RuntimeModel, key: u8)
    requires
        m.escape is Idle,
        m.reliable,
        m.line.len() < 4096,
        0x20 <= key <= 0x7e,
    ensures
        m.typed(key).line == m.line.push(key as char),
        m.typed(key).typed(0x7f) == m,
        m.typed(key).typed(0x08) == m,
{
    assert(m.line.push(key as char).drop_last() =~= m.line);
}

/// Control and U empties the line; control and C gives up the session that was
/// asked for, too.
pub proof fn lines_can_be_dropped(m: RuntimeModel)
    requires
        m.escape is Idle,
    ensures
        m.typed(0x15).line.len() == 0,
        m.typed(0x15).reliable,
        m.typed(0x15).doubtful is None,
        m.typed(0x15).nesting == m.nesting,
        m.typed(0x03).line.len() == 0,
        m.typed(0x03).reliable,
        m.typed(0x03).doubtful is None,
        m.typed(0x03).nesting == (Nesting { pending: None, ..m.nesting }),
{
}

/// The bytes of a key that moves the cursor or brings back another line: an
/// arrow key in its two forms.
pub open spec fn arrow_key(k: Seq<u8>) -> bool {
    k.len() == 3 && k[0] == 0x1b && (k[1] == 0x5b || k[1] == 0x4f) && 0x41 <= k[2] <= 0x44
}

/// Behind an arrow key the line is no longer known. What it asked for is kept
/// in mind without the host, and the marks around a paste change nothing.
pub proof fn arrows_make_the_host_unknown(m: RuntimeModel, k: Seq<u8>)
    requires
        m.escape is Idle,
        m.reliable,
        arrow_key(k),
    ensures
        ({
            let after = m.after_input(k);
            &&& after.escape is Idle
            &&& !after.reliable
            &&& after.nesting == m.nesting
            &&& match attempt_of(m.line) {
                Some(a) => after.doubtful == Some(AttemptView { policy: a.policy, target: None })
                    && after.typed(0x0d).nesting.pending == Some(
                    AttemptView { policy: a.policy, target: None },
                ),
                None => after.doubtful is None && after.typed(0x0d).nesting.pending
                    == m.nesting.pending,
            }
        }),
        m.after_input(seq![0x1bu8, 0x5bu8, 0x32u8, 0x30u8, 0x30u8, 0x7eu8]) == m,
        m.after_input(seq![0x1bu8, 0x5bu8, 0x32u8, 0x30u8, 0x31u8, 0x7eu8]) == m,
{
    reveal_with_fuel(RuntimeModel::after_input, 7);
    assert(k.drop_last().drop_last().drop_last() =~= Seq::<u8>::empty());
    assert(k.drop_last().drop_last().last() == k[0]);
    assert(k.drop_last().last() == k[1]);
    lemma_paste(m, 0x30);
    lemma_paste(m, 0x31);
}

proof fn lemma_paste(m: RuntimeModel, d: u8)
    requires
        m.escape is Idle,
        d == 0x30 || d == 0x31,
    ensures
        m.after_input(seq![0x1bu8, 0x5bu8, 0x32u8, 0x30u8, d, 0x7eu8]) == m,
{
    let s = seq![0x1bu8, 0x5bu8, 0x32u8, 0x30u8, d, 0x7eu8];
    lemma_prefix(m, s, 1);
    lemma_prefix(m, s, 2);
    lemma_prefix(m, s, 3);
    lemma_prefix(m, s, 4);
    lemma_prefix(m, s, 5);
    lemma_prefix(m, s, 6);
    assert(s.take(0) =~= Seq::<u8>::empty());
    assert(m.after_input(s.take(0)) == m);
    assert(s.take(6) =~= s);
}

proof fn lemma_prefix(m: RuntimeModel, s: Seq<u8>, n: int)
    requires
        0 < n <= s.len(),
    ensures
        m.after_input(s.take(n)) == m.after_input(s.take(n - 1)).typed(s[n - 1]),
{
    assert(s.take(n).drop_last() =~= s.take(n - 1));
}

/// Eight sessions can be nested. With one more, the frame behind the outermost
/// is forgotten, and the others keep their order.
pub proof fn eight_sessions_can_be_nested(n: Nesting, a: AttemptView, k: int)
    requires
        n.stack.len() <= 8,
        0 <= k,
    ensures
        ({
            let stack = n.pushed(a, false).stack;
            &&& stack.len() == if n.stack.len() < 8 {
                n.stack.len() + 1
            } else {
                8
            }
            &&& stack.last() == FrameView {
                profiles: n.active,
                policy: a.policy,
                target: a.target,
                unresolved: false,
            }
            &&& n.stack.len() < 8 && k < n.stack.len() ==> stack[k] == n.stack[k]
            &&& n.stack.len() == 8 && k == 0 ==> stack[k] == n.stack[0]
            &&& n.stack.len() == 8 && 1 <= k < 7 ==> stack[k] == n.stack[k + 1]
        }),
{
}

/// The line is no longer followed once it has 4096 characters.
pub proof fn long_lines_are_not_followed(m: RuntimeModel, key: u8)
    requires
        m.escape is Idle,
        m.reliable,
        m.line.len() == 4096,
        0x20 <= key <= 0x7e,
    ensures
        !m.typed(key).reliable,
        m.typed(key).line.len() == 0,
{
}

/// Output is looked at when a line ends, when it ends like a prompt, when a
/// remote session was asked for, and else every 4096 bytes.
pub proof fn output_is_looked_at_in_time(m: RuntimeModel, text: Seq<char>, k: int)
    ensures
        0 <= k < text.len() && (text[k] == '\n' || text[k] == '\r') ==> m.detects(text),
        m.nesting.pending is Some ==> m.detects(text),
        m.since >= 4096 ==> m.detects(text),
        text.len() > 0 && (text.last() == '#' || text.last() == '>' || text.last() == '$'
            || text.last() == '%') ==> m.detects(text),
        m.since < 4096 && m.nesting.pending is None && text.len() > 0 && 'a' <= text.last() <= 'z'
            && (forall|j: int| 0 <= j < text.len() ==> #[trigger] text[j] != '\n' && text[j]
            != '\r') ==> !m.detects(text),
{
    let n = text.len() as int;
    if n > 0 && !whitespace(text.last()) {
        assert(space_start(text, n) == n);
        assert(trimmed_end(text) =~= text);
    }
}

/// What the output of a shell tells at first are the profiles of the local
/// shell, if they can be: the session goes back to them in the end.
pub proof fn the_local_shell_is_learned(
    m: RuntimeModel,
    text: Seq<char>,
    profiles: Seq<ProfileView>,
    names: Seq<Seq<char>>,
    k: int,
)
    requires
        !m.nesting.locked,
        m.nesting.stack.len() == 0,
        m.nesting.pending is None,
        m.nesting.active == seq![seq!['g', 'e', 'n', 'e', 'r', 'i', 'c']],
        0 <= k < text.len(),
        text[k] == '\n',
        is_detection(profiles, m.with_output(text).window, names),
        names.len() > 1,
        forall|i: int|
            0 <= i < names.len() ==> (lookup(profiles, #[trigger] names[i]) matches Some(p)
                && p.runtime.local_baseline),
    ensures
        ({
            let (after, proposed) = m.after_output(text, profiles);
            &&& after.nesting.active == names
            &&& after.nesting.baseline == names
            &&& after.nesting.locked
            &&& proposed == Some(names)
        }),
{
    reveal_strlit("generic");
    assert("generic"@ =~= seq!['g', 'e', 'n', 'e', 'r', 'i', 'c']);
    let start = RuntimeModel { rollback: None, ..m };
    let seen = start.with_output(text);
    assert(seen.window == m.with_output(text).window);
    detection_is_unique(profiles, seen.window, names, detected(profiles, seen.window));
    assert(seen.detects(text));
    assert(!seen.nesting.top_closed(seen.markers()));
    assert(!seen.nesting.top_closed_by_name(seen.markers()));
    assert(m.nesting.active[0] == "generic"@);
    assert(text.len() > 0);
}

} // verus!
