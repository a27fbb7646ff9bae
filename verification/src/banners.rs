//! Laws about telling devices by what they say: banners, hints, and the order
//! of the profiles that they tell of.

use vstd::prelude::*;
use vstd::utf8::encode_utf8;

use crate::builtin::{
    arista_profile, arubacx_profile, bundled_profiles, cisco_profile, fortinet_profile,
    generic_profile, juniper_profile, linux_unix_profile, palo_alto_profile, registered,
    versa_profile,
};
use crate::bytes::lower;
use crate::config::RuleView;
use crate::hints::{alike, hint_at, hint_in};
use crate::profiles::{
    by_name, comes_before, is_detection, lemma_comes_before, lookup, registering_a_profile,
    user_profile, ProfileView,
};
use crate::prompt_forms::lemma_last_line;
use crate::selection::{eligible, is_choice, Evidence};
use crate::signals::{contains_some, marked_line, some_signal, PromptConfidence, SignalView};
use crate::text::{
    contains_ci, lines, lowered, skip_space, space_start, starts_with_ci, text_at, text_less,
    trimmed, whitespace,
};

verus! {

/// The same letter, small or capital, or the same other character.
pub open spec fn same_letter(a: char, b: char) -> bool {
    ||| a == b
    ||| 'a' <= a <= 'z' && b as int == a as int - 32
    ||| 'a' <= b <= 'z' && a as int == b as int - 32
}

/// `word` is written at offset `i` of `text`, in small or capital letters.
pub open spec fn written_at(text: Seq<char>, word: Seq<char>, i: int) -> bool {
    &&& 0 <= i
    &&& i + word.len() <= text.len()
    &&& forall|k: int| 0 <= k < word.len() ==> same_letter(text[i + k], #[trigger] word[k])
}

pub open spec fn written_in(text: Seq<char>, word: Seq<char>) -> bool {
    exists|i: int| #[trigger] written_at(text, word, i)
}

proof fn lemma_written_at(text: Seq<char>, word: Seq<char>, i: int)
    requires
        0 <= i,
        i + word.len() <= text.len(),
    ensures
        text_at(lowered(text), lowered(word), i) <==> written_at(text, word, i),
{
    let a = lowered(text).subrange(i, i + word.len());
    let b = lowered(word);
    if a == b {
        assert forall|k: int| 0 <= k < word.len() implies same_letter(
            text[i + k],
            #[trigger] word[k],
        ) by {
            assert(a[k] == b[k]);
        }
    }
    if written_at(text, word, i) {
        assert forall|k: int| 0 <= k < word.len() implies a[k] == b[k] by {
            assert(same_letter(text[i + k], word[k]));
        }
        assert(a =~= b);
    }
}

proof fn lemma_written(text: Seq<char>, word: Seq<char>)
    ensures
        contains_ci(text, word) <==> written_in(text, word),
        starts_with_ci(text, word) <==> written_at(text, word, 0),
{
    if contains_ci(text, word) {
        let i = choose|i: int| #[trigger] text_at(lowered(text), lowered(word), i);
        lemma_written_at(text, word, i);
    }
    if written_in(text, word) {
        let i = choose|i: int| #[trigger] written_at(text, word, i);
        lemma_written_at(text, word, i);
    }
    if word.len() <= text.len() {
        lemma_written_at(text, word, 0);
    }
}

/// A banner is given by the texts that it is written in, in small or capital
/// letters, and by no others.
pub proof fn banners_are_written_in_texts(text: Seq<char>, value: Seq<char>, values: Seq<Seq<char>>)
    ensures
        SignalView::Contains(value).given_by(text) <==> written_in(text, value),
        SignalView::ContainsAny(values).given_by(text) <==> exists|k: int|
            0 <= k < values.len() && written_in(text, #[trigger] values[k]),
{
    lemma_written(text, value);
    assert forall|k: int| 0 <= k < values.len() implies contains_ci(text, #[trigger] values[k])
        == written_in(text, values[k]) by {
        lemma_written(text, values[k]);
    }
}

/// A banner of two parts is given by a line that begins with the first and has
/// the second on it.
pub proof fn banner_lines_have_two_parts(
    before: Seq<char>,
    line: Seq<char>,
    prefix: Seq<char>,
    values: Seq<Seq<char>>,
    k: int,
)
    requires
        before.len() > 0 ==> before.last() == '\n',
        line.len() > 0,
        !whitespace(line[0]),
        !whitespace(line.last()),
        forall|j: int| 0 <= j < line.len() ==> #[trigger] line[j] != '\n',
        written_at(line, prefix, 0),
        0 <= k < values.len(),
        written_in(line, values[k]),
    ensures
        SignalView::LinePrefixAndAny(prefix, values).given_by(before + line),
{
    let text = before + line;
    assert(text.subrange(text.len() - line.len(), text.len() as int) =~= line);
    if before.len() > 0 {
        assert(text[before.len() - 1] == before.last());
    }
    lemma_last_line(text, 0, line);
    let n = lines(text).len() - 1;
    assert(skip_space(line, 0) == 0);
    assert(space_start(line, line.len() as int) == line.len());
    assert(trimmed(line) =~= line);
    lemma_written(line, prefix);
    lemma_written(line, values[k]);
    assert(contains_some(line, values));
    assert(marked_line(lines(text)[n], prefix, values));
}

/// A text without the second part, in any letters, does not give such a
/// banner.
pub proof fn banner_lines_need_their_values(
    text: Seq<char>,
    prefix: Seq<char>,
    values: Seq<Seq<char>>,
)
    requires
        SignalView::LinePrefixAndAny(prefix, values).given_by(text),
    ensures
        exists|n: int, k: int|
            0 <= n < lines(text).len() && 0 <= k < values.len() && written_at(
                trimmed(#[trigger] lines(text)[n]),
                prefix,
                0,
            ) && written_in(trimmed(lines(text)[n]), #[trigger] values[k]),
{
    let n = choose|n: int|
        0 <= n < lines(text).len() && marked_line(#[trigger] lines(text)[n], prefix, values);
    let line = trimmed(lines(text)[n]);
    let k = choose|k: int| 0 <= k < values.len() && contains_ci(line, #[trigger] values[k]);
    lemma_written(line, prefix);
    lemma_written(line, values[k]);
}

/// A banner tells of its profile: at startup detection names it, and later
/// output changes to it, or to one that comes before it.
pub proof fn banners_tell_of_profiles(
    profiles: Seq<ProfileView>,
    p: ProfileView,
    k: int,
    text: Seq<char>,
    names: Seq<Seq<char>>,
    all: Seq<Seq<char>>,
    active: Option<Seq<char>>,
    r: Option<Seq<char>>,
)
    requires
        lookup(profiles, p.name) == Some(p),
        p.name != seq!['g', 'e', 'n', 'e', 'r', 'i', 'c'],
        0 <= k < p.runtime.strong_signals.len(),
        p.runtime.strong_signals[k].given_by(text),
        is_detection(profiles, text, names),
        all.contains(p.name),
        active != Some(p.name),
        is_choice(profiles, all, Evidence::Signal, text, active, r),
    ensures
        p.told_by(text),
        names.contains(p.name),
        r matches Some(x) && all.contains(x) && active != Some(x) && (lookup(
            profiles,
            x,
        ) matches Some(q) && some_signal(q.runtime.strong_signals, text) && (q.runtime.priority
            < p.runtime.priority || (q.runtime.priority == p.runtime.priority && (x == p.name
            || text_less(x, p.name))))),
{
    reveal_strlit("generic");
    assert("generic"@ =~= seq!['g', 'e', 'n', 'e', 'r', 'i', 'c']);
    assert(some_signal(p.runtime.strong_signals, text));
    assert(names.skip(1).contains(p.name));
    let i = choose|i: int| 0 <= i < names.skip(1).len() && names.skip(1)[i] == p.name;
    assert(names[i + 1] == p.name);
    let j = choose|j: int| 0 <= j < all.len() && all[j] == p.name;
    assert(eligible(profiles, Evidence::Signal, text, active, all[j]));
    let x = r->Some_0;
    assert(!comes_before(profiles, p.name, x));
    lemma_comes_before(profiles, p.name, x, x);
}

/// What is detected stands in the order of priority, in that of names where
/// the priority is the same, behind the generic profile.
pub proof fn detected_profiles_are_in_order(
    profiles: Seq<ProfileView>,
    text: Seq<char>,
    names: Seq<Seq<char>>,
    i: int,
    j: int,
)
    requires
        is_detection(profiles, text, names),
        0 < i < j < names.len(),
    ensures
        names[0] == seq!['g', 'e', 'n', 'e', 'r', 'i', 'c'],
        lookup(profiles, names[i]) is Some,
        lookup(profiles, names[j]) is Some,
        ({
            let p = lookup(profiles, names[i])->Some_0.runtime.priority;
            let q = lookup(profiles, names[j])->Some_0.runtime.priority;
            p < q || (p == q && text_less(names[i], names[j]))
        }),
{
    reveal_strlit("generic");
    assert("generic"@ =~= seq!['g', 'e', 'n', 'e', 'r', 'i', 'c']);
    let rest = names.skip(1);
    assert(rest[i - 1] == names[i] && rest[j - 1] == names[j]);
    assert(rest.contains(names[i]) && rest.contains(names[j]));
    assert(comes_before(profiles, rest[i - 1], rest[j - 1]));
}

/// A letter, a digit or an underscore.
pub open spec fn word_part(b: u8) -> bool {
    0x30 <= b <= 0x39 || 0x41 <= b <= 0x5a || 0x61 <= b <= 0x7a || b == 0x5f
}

/// The same letter, small or capital, or the same other byte.
pub open spec fn same_byte(a: u8, b: u8) -> bool {
    ||| a == b
    ||| 0x61 <= a <= 0x7a && b == a - 32
    ||| 0x61 <= b <= 0x7a && a == b - 32
}

/// The hint is written at offset `i`, in small or capital letters, and no word
/// goes on over its ends.
pub open spec fn hint_written_at(text: Seq<u8>, hint: Seq<u8>, i: int) -> bool {
    let end = i + hint.len();
    &&& 0 <= i
    &&& end <= text.len()
    &&& forall|k: int| 0 <= k < hint.len() ==> same_byte(text[i + k], #[trigger] hint[k])
    &&& !(word_part(hint[0]) && i > 0 && word_part(text[i - 1]))
    &&& !(word_part(hint.last()) && end < text.len() && word_part(text[end]))
}

proof fn lemma_hint_written_at(text: Seq<u8>, hint: Seq<u8>, i: int)
    requires
        hint.len() > 0,
    ensures
        hint_at(text, hint, i) <==> hint_written_at(text, hint, i),
{
    if 0 <= i && i + hint.len() <= text.len() {
        let part = text.subrange(i, i + hint.len());
        if alike(part, hint) {
            assert forall|k: int| 0 <= k < hint.len() implies same_byte(
                text[i + k],
                #[trigger] hint[k],
            ) by {
                assert(lower(part[k]) == lower(hint[k]));
            }
        }
        if hint_written_at(text, hint, i) {
            assert forall|k: int| 0 <= k < part.len() implies lower(
                #[trigger] part[k],
            ) == lower(hint[k]) by {
                assert(same_byte(text[i + k], hint[k]));
            }
        }
    }
}

/// A hint is found where it is written as whole words, and nowhere else.
pub proof fn hints_are_whole_words(text: Seq<u8>, hint: Seq<u8>)
    requires
        hint.len() > 0,
    ensures
        hint_in(text, hint) <==> exists|i: int| #[trigger] hint_written_at(text, hint, i),
{
    if hint_in(text, hint) {
        let i = choose|i: int| #[trigger] hint_at(text, hint, i);
        lemma_hint_written_at(text, hint, i);
    }
    if exists|i: int| #[trigger] hint_written_at(text, hint, i) {
        let i = choose|i: int| #[trigger] hint_written_at(text, hint, i);
        lemma_hint_written_at(text, hint, i);
    }
}

/// A hint tells of its profile at startup, also where something speaks against
/// it.
pub proof fn hints_tell_of_profiles(
    profiles: Seq<ProfileView>,
    p: ProfileView,
    k: int,
    i: int,
    text: Seq<char>,
    names: Seq<Seq<char>>,
)
    requires
        lookup(profiles, p.name) == Some(p),
        p.name != seq!['g', 'e', 'n', 'e', 'r', 'i', 'c'],
        0 <= k < p.detection.len(),
        p.detection[k].len() > 0,
        hint_written_at(encode_utf8(text), encode_utf8(p.detection[k]), i),
        encode_utf8(p.detection[k]).len() > 0,
        is_detection(profiles, text, names),
    ensures
        p.told_by(text),
        names.contains(p.name),
{
    reveal_strlit("generic");
    assert("generic"@ =~= seq!['g', 'e', 'n', 'e', 'r', 'i', 'c']);
    hints_are_whole_words(encode_utf8(text), encode_utf8(p.detection[k]));
    assert(p.hinted_by(encode_utf8(text)));
    assert(names.skip(1).contains(p.name));
    let j = choose|j: int| 0 <= j < names.skip(1).len() && names.skip(1)[j] == p.name;
    assert(names[j + 1] == p.name);
}

/// Nothing but a hint, a banner or a prompt tells of a profile, and a prompt
/// only where no signal speaks against it.
pub proof fn nothing_else_tells_of_profiles(p: ProfileView, text: Seq<char>)
    ensures
        p.told_by(text) ==> p.name != seq!['g', 'e', 'n', 'e', 'r', 'i', 'c'] && {
            ||| exists|k: int|
                0 <= k < p.detection.len() && hint_in(
                    encode_utf8(text),
                    encode_utf8(#[trigger] p.detection[k]),
                )
            ||| exists|k: int|
                0 <= k < p.runtime.strong_signals.len() && (
                #[trigger] p.runtime.strong_signals[k]).given_by(text)
            ||| p.runtime.startup_prompt.text(text) && forall|k: int|
                0 <= k < p.runtime.negative_signals.len() ==> !(
                #[trigger] p.runtime.negative_signals[k]).given_by(text)
        },
{
    reveal_strlit("generic");
    assert("generic"@ =~= seq!['g', 'e', 'n', 'e', 'r', 'i', 'c']);
}

/// A profile of a user is told by its hints and by nothing else, and stands
/// behind all bundled ones.
pub proof fn user_profiles_are_told_by_hints(
    name: Seq<char>,
    inherits: Seq<Seq<char>>,
    detection: Seq<Seq<char>>,
    rules: Seq<RuleView>,
    text: Seq<char>,
    k: int,
)
    requires
        0 <= k < bundled_profiles().len(),
    ensures
        ({
            let p = user_profile(name, inherits, detection, rules);
            &&& p.name == name && p.inherits == inherits && p.rules == rules
            &&& p.told_by(text) <==> name != seq!['g', 'e', 'n', 'e', 'r', 'i', 'c'] && exists|i: int|
                0 <= i < detection.len() && hint_in(
                    encode_utf8(text),
                    encode_utf8(#[trigger] detection[i]),
                )
            &&& bundled_profiles()[k].runtime.priority < p.runtime.priority
            &&& !p.runtime.local_baseline
            &&& p.runtime.prompt_confidence is Repeated
        }),
{
    reveal_strlit("generic");
    assert("generic"@ =~= seq!['g', 'e', 'n', 'e', 'r', 'i', 'c']);
    let p = user_profile(name, inherits, detection, rules);
    assert(!p.runtime.startup_prompt.text(text));
    assert(!some_signal(p.runtime.strong_signals, text));
    let bytes = encode_utf8(text);
    if p.told_by(text) {
        let i = choose|i: int|
            0 <= i < p.detection.len() && hint_in(bytes, encode_utf8(#[trigger] p.detection[i]));
        assert(hint_in(bytes, encode_utf8(detection[i])));
    }
    if exists|i: int|
        0 <= i < detection.len() && hint_in(bytes, encode_utf8(#[trigger] detection[i])) {
        let i = choose|i: int|
            0 <= i < detection.len() && hint_in(bytes, encode_utf8(#[trigger] detection[i]));
        assert(hint_in(bytes, encode_utf8(p.detection[i])));
    }
    assert(k == 0 || k == 1 || k == 2 || k == 3 || k == 4 || k == 5 || k == 6 || k == 7 || k == 8);
}

/// What the bundled profiles are told by, and in which order.
pub proof fn bundled_profiles_have_their_banners()
    ensures
        juniper_profile().name == "juniper"@,
        juniper_profile().detection == seq!["junos"@, "commit check"@, "display set"@],
        juniper_profile().runtime.strong_signals == seq![SignalView::Contains("JUNOS"@)],
        fortinet_profile().name == "fortinet"@,
        fortinet_profile().detection == seq!["fortigate"@, "fortios"@],
        fortinet_profile().runtime.strong_signals == seq![
            SignalView::LinePrefixAndAny("Version:"@, seq!["FortiGate"@, "FortiOS"@]),
        ],
        arubacx_profile().name == "arubacx"@,
        arubacx_profile().detection == seq!["arubaos-cx"@, "hpe-restd"@],
        arubacx_profile().runtime.strong_signals == seq![SignalView::Contains("ArubaOS-CX"@)],
        arista_profile().name == "arista"@,
        arista_profile().detection == seq!["arista"@],
        arista_profile().runtime.strong_signals == seq![
            SignalView::Contains("Arista Networks EOS"@),
        ],
        cisco_profile().name == "cisco"@,
        cisco_profile().detection == seq!["line protocol is"@, "cisco ios"@, "nx-os"@],
        cisco_profile().runtime.strong_signals == seq![
            SignalView::ContainsAny(
                seq!["Cisco IOS Software"@, "Cisco Nexus Operating System"@],
            ),
        ],
        palo_alto_profile().name == "palo-alto"@,
        palo_alto_profile().detection == seq!["pan-os"@],
        palo_alto_profile().runtime.strong_signals == seq![SignalView::Contains("PAN-OS"@)],
        versa_profile().name == "versa"@,
        versa_profile().detection == seq!["versa director"@, "versa networks"@],
        versa_profile().runtime.strong_signals == seq![SignalView::Contains("Versa Director"@)],
        linux_unix_profile().name == "linux-unix"@,
        linux_unix_profile().detection == seq!["ubuntu"@, "debian"@, "systemd"@],
        linux_unix_profile().runtime.strong_signals == seq![
            SignalView::ContainsAny(seq!["OS: Ubuntu"@, "Kernel: Linux"@]),
        ],
        generic_profile().runtime.priority < juniper_profile().runtime.priority
            < fortinet_profile().runtime.priority < arubacx_profile().runtime.priority
            < arista_profile().runtime.priority < cisco_profile().runtime.priority
            < palo_alto_profile().runtime.priority < versa_profile().runtime.priority
            < linux_unix_profile().runtime.priority,
        juniper_profile().runtime.negative_signals == seq![
            SignalView::ContainsAny(seq!["PAN-OS"@, "Versa"@]),
        ],
        cisco_profile().runtime.negative_signals == seq![
            SignalView::ContainsAny(seq!["ArubaOS-CX"@, "hpe-restd"@]),
        ],
        fortinet_profile().runtime.prompt_confidence is SingleFromBaselineOrRemoteHint,
        forall|k: int|
            0 <= k < bundled_profiles().len() && bundled_profiles()[k] != fortinet_profile()
                ==> #[trigger] bundled_profiles()[k].runtime.prompt_confidence
                == PromptConfidence::Repeated,
        forall|k: int|
            0 <= k < bundled_profiles().len() ==> (#[trigger] bundled_profiles()[k].runtime.local_baseline
                <==> bundled_profiles()[k] == generic_profile() || bundled_profiles()[k]
                == linux_unix_profile()),
{
}

proof fn lemma_registered(n: int)
    requires
        0 <= n <= 9,
    ensures
        by_name(registered(bundled_profiles(), n)),
        forall|k: int|
            #![trigger bundled_profiles()[k]]
            0 <= k < n ==> lookup(
                registered(bundled_profiles(), n),
                bundled_profiles()[k].name,
            ) == Some(bundled_profiles()[k]),
    decreases n,
{
    let all = bundled_profiles();
    if n > 0 {
        lemma_registered(n - 1);
        let before = registered(all, n - 1);
        registering_a_profile(before, all[n - 1], all[n - 1].name);
        assert forall|k: int| #![trigger all[k]] 0 <= k < n implies lookup(
            registered(all, n),
            all[k].name,
        ) == Some(all[k]) by {
            lemma_names_differ(k, n - 1);
            registering_a_profile(before, all[n - 1], all[k].name);
        }
    }
}

proof fn lemma_names_differ(a: int, b: int)
    requires
        0 <= a <= b < 9,
    ensures
        a < b ==> bundled_profiles()[a].name != bundled_profiles()[b].name,
{
    reveal_strlit("generic");
    reveal_strlit("juniper");
    reveal_strlit("fortinet");
    reveal_strlit("arubacx");
    reveal_strlit("arista");
    reveal_strlit("cisco");
    reveal_strlit("palo-alto");
    reveal_strlit("versa");
    reveal_strlit("linux-unix");
    assert("generic"@[0] == 'g' && "juniper"@[0] == 'j' && "fortinet"@[0] == 'f' && "arubacx"@[2]
        == 'u' && "arista"@[2] == 'i' && "arubacx"@[0] == 'a' && "arista"@[0] == 'a' && "cisco"@[0]
        == 'c' && "palo-alto"@[0] == 'p' && "versa"@[0] == 'v' && "linux-unix"@[0] == 'l');
}

/// Every bundled profile is found under its name.
pub proof fn bundled_profiles_are_found(k: int)
    requires
        0 <= k < bundled_profiles().len(),
    ensures
        lookup(
            registered(bundled_profiles(), bundled_profiles().len() as int),
            bundled_profiles()[k].name,
        ) == Some(bundled_profiles()[k]),
{
    lemma_registered(9);
}

} // verus!
