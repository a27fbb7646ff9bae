//! The store of profiles: what is registered, and which profiles a text tells
//! of.

use vstd::prelude::*;
use vstd::string::*;
use vstd::utf8::*;

use crate::config::{append_rules, rule_views, RuleSpec, RuleView};
use crate::detection::{
    found, hint_bytes, lemma_found_stands, lemma_with_hints, with_hints, DetectionMatcher,
};
use crate::hints::{hint_in, stands_in, symbols, whole_words_are_symbols};
use crate::metadata::{
    normalize_and_validate_profile_metadata, normalize_profile_metadata_unbounded,
    normalized_freely, normalized_profile, text_byte_len, total_bytes,
    MAX_STORE_DETECTION_BYTES, MAX_STORE_DETECTION_HINTS, MAX_STORE_INHERITANCE_BYTES,
    MAX_STORE_INHERITANCE_ENTRIES, MetadataIssue, MetadataKind, MetadataMeasure, MetadataScope,
    ProfileMetadataLimitError,
};
use crate::signals::{
    copy_texts, some_signal, USER_PROFILE_RUNTIME_PRIORITY, ProfileRuntimeMeta, RuntimeView,
};
use crate::text::{
    chars_of, copy_text, lemma_text_less_irreflexive, lemma_text_less_total,
    lemma_text_less_transitive, same_text, text_is_less, text_less, text_views,
};

verus! {

/// A profile: its parents, what tells it, and its rules.
#[derive(Clone, Debug)]
pub struct Profile {
    pub name: String,
    /// Profiles whose rules come with this one's.
    pub inherits: Vec<String>,
    /// Words that tell the profile at startup, whatever their case.
    pub detection: Vec<String>,
    pub runtime: ProfileRuntimeMeta,
    pub rules: Vec<RuleSpec>,
}

/// The content of a [`Profile`].
pub struct ProfileView {
    pub name: Seq<char>,
    pub inherits: Seq<Seq<char>>,
    pub detection: Seq<Seq<char>>,
    pub runtime: RuntimeView,
    pub rules: Seq<RuleView>,
}

impl View for Profile {
    type V = ProfileView;

    open spec fn view(&self) -> ProfileView {
        ProfileView {
            name: self.name@,
            inherits: text_views(self.inherits@),
            detection: text_views(self.detection@),
            runtime: self.runtime@,
            rules: rule_views(self.rules@),
        }
    }
}

impl Profile {
    pub fn duplicate(&self) -> (r: Profile)
        ensures
            r@ == self@,
    {
        let mut rules: Vec<RuleSpec> = Vec::new();
        append_rules(&mut rules, &self.rules);
        assert(rule_views(rules@) =~= rule_views(self.rules@));
        Profile {
            name: copy_text(self.name.as_str()),
            inherits: copy_texts(&self.inherits),
            detection: copy_texts(&self.detection),
            runtime: self.runtime.duplicate(),
            rules,
        }
    }
}

pub open spec fn profile_views(profiles: Seq<Profile>) -> Seq<ProfileView> {
    profiles.map_values(|p: Profile| p@)
}

/// The profile that every selection has.
pub open spec fn generic() -> Seq<char> {
    "generic"@
}

impl ProfileView {
    /// A hint of the profile stands in the text as whole words.
    pub open spec fn hinted_by(self, text: Seq<u8>) -> bool {
        self.name != generic() && exists|k: int|
            0 <= k < self.detection.len() && hint_in(text, encode_utf8(#[trigger] self.detection[k]))
    }

    /// The text tells the profile at startup.
    pub open spec fn told_by(self, text: Seq<char>) -> bool {
        self.name != generic() && (self.hinted_by(encode_utf8(text)) || some_signal(
            self.runtime.strong_signals,
            text,
        ) || self.runtime.startup_prompt_in(text))
    }
}

/// The profile without the signals that speak against it.
pub open spec fn unexcluded(p: ProfileView) -> ProfileView {
    ProfileView {
        runtime: RuntimeView { negative_signals: Seq::empty(), ..p.runtime },
        ..p
    }
}

/// Signals that speak against a profile keep a text from telling it only where
/// nothing but a prompt does: neither a hint nor a strong signal is blocked.
pub proof fn exclusions_block_startup_prompts_only(p: ProfileView, text: Seq<char>)
    ensures
        p.told_by(text) ==> unexcluded(p).told_by(text),
        unexcluded(p).told_by(text) && !p.told_by(text) ==> p.runtime.startup_prompt.text(text)
            && some_signal(p.runtime.negative_signals, text) && !p.hinted_by(encode_utf8(text))
            && !some_signal(p.runtime.strong_signals, text),
{
    assert(unexcluded(p).hinted_by(encode_utf8(text)) == p.hinted_by(encode_utf8(text)));
}

/// The profiles are in the order of their names, no name twice.
pub open spec fn by_name(profiles: Seq<ProfileView>) -> bool {
    forall|i: int, j: int|
        0 <= i < j < profiles.len() ==> text_less(
            (#[trigger] profiles[i]).name,
            (#[trigger] profiles[j]).name,
        )
}

/// The names are in order, none of them twice.
pub open spec fn ascending(names: Seq<Seq<char>>) -> bool {
    forall|i: int, j: int|
        0 <= i < j < names.len() ==> text_less(#[trigger] names[i], #[trigger] names[j])
}

/// How many profiles, from `i` on, come before `name`: where it stands or
/// would stand.
pub open spec fn rank_from(profiles: Seq<ProfileView>, name: Seq<char>, i: int) -> int
    decreases profiles.len() - i,
{
    if 0 <= i < profiles.len() && text_less(profiles[i].name, name) {
        rank_from(profiles, name, i + 1)
    } else {
        i
    }
}

/// Where the profile `name` stands, if there is one.
pub open spec fn place(profiles: Seq<ProfileView>, name: Seq<char>) -> Option<int> {
    let i = rank_from(profiles, name, 0);
    if 0 <= i < profiles.len() && profiles[i].name == name {
        Some(i)
    } else {
        None
    }
}

/// The profile `name`, if there is one.
pub open spec fn lookup(profiles: Seq<ProfileView>, name: Seq<char>) -> Option<ProfileView> {
    match place(profiles, name) {
        Some(i) => Some(profiles[i]),
        None => None,
    }
}

/// `profiles` with `profile` in its place, instead of one of the same name.
pub open spec fn with_profile(profiles: Seq<ProfileView>, profile: ProfileView) -> Seq<ProfileView> {
    let i = rank_from(profiles, profile.name, 0);
    if place(profiles, profile.name) is Some {
        profiles.update(i, profile)
    } else {
        profiles.insert(i, profile)
    }
}

pub proof fn lemma_rank(profiles: Seq<ProfileView>, name: Seq<char>, i: int)
    requires
        0 <= i <= profiles.len(),
    ensures
        i <= rank_from(profiles, name, i) <= profiles.len(),
        forall|k: int|
            i <= k < rank_from(profiles, name, i) ==> text_less((#[trigger] profiles[k]).name, name),
        rank_from(profiles, name, i) < profiles.len() ==> !text_less(
            profiles[rank_from(profiles, name, i)].name,
            name,
        ),
    decreases profiles.len() - i,
{
    if i < profiles.len() && text_less(profiles[i].name, name) {
        lemma_rank(profiles, name, i + 1);
    }
}

/// A profile is found exactly where one of that name is registered.
pub proof fn lemma_place(profiles: Seq<ProfileView>, name: Seq<char>)
    requires
        by_name(profiles),
    ensures
        match place(profiles, name) {
            Some(i) => 0 <= i < profiles.len() && profiles[i].name == name,
            None => forall|k: int| 0 <= k < profiles.len() ==> (#[trigger] profiles[k]).name != name,
        },
        forall|k: int|
            0 <= k < profiles.len() && (#[trigger] profiles[k]).name == name ==> place(
                profiles,
                name,
            ) == Some(k),
{
    lemma_rank(profiles, name, 0);
    let i = rank_from(profiles, name, 0);
    assert forall|k: int| 0 <= k < profiles.len() && (#[trigger] profiles[k]).name
        == name implies i == k by {
        lemma_text_less_irreflexive(name);
        if k < i {
            assert(text_less(profiles[k].name, name));
        }
        if i < k {
            assert(text_less(profiles[i].name, profiles[k].name));
        }
    }
}

/// Registering a profile keeps the order, is seen by later lookups of its
/// name, and changes no other lookup.
pub proof fn registering_a_profile(
    profiles: Seq<ProfileView>,
    profile: ProfileView,
    other: Seq<char>,
)
    requires
        by_name(profiles),
    ensures
        by_name(with_profile(profiles, profile)),
        lookup(with_profile(profiles, profile), profile.name) == Some(profile),
        other != profile.name ==> lookup(with_profile(profiles, profile), other) == lookup(
            profiles,
            other,
        ),
{
    let name = profile.name;
    let i = rank_from(profiles, name, 0);
    let now = with_profile(profiles, profile);
    lemma_rank(profiles, name, 0);
    lemma_place(profiles, name);
    lemma_place(profiles, other);
    let shadows = place(profiles, name) is Some;
    assert forall|k: int| 0 <= k < now.len() implies #[trigger] now[k] == (if k == i {
        profile
    } else if k < i || shadows {
        profiles[k]
    } else {
        profiles[k - 1]
    }) by {}
    assert forall|a: int, b: int| 0 <= a < b < now.len() implies text_less(
        (#[trigger] now[a]).name,
        (#[trigger] now[b]).name,
    ) by {
        let x = if a < i || shadows {
            a
        } else {
            a - 1
        };
        let y = if b < i || shadows {
            b
        } else {
            b - 1
        };
        if a != i && b != i {
            assert(text_less(profiles[x].name, profiles[y].name));
        } else if b == i {
            assert(text_less(profiles[a].name, name));
        } else if shadows {
            assert(text_less(profiles[i].name, profiles[b].name));
        } else {
            let p = profiles[y].name;
            assert(!text_less(profiles[i].name, name) && profiles[i].name != name);
            lemma_text_less_total(profiles[i].name, name);
            if y > i {
                assert(text_less(profiles[i].name, p));
                lemma_text_less_transitive(name, profiles[i].name, p);
            }
        }
    }
    lemma_place(now, name);
    assert(now[i].name == name);
    if other != name {
        lemma_place(now, other);
        if let Some(k) = place(profiles, other) {
            let j = if k < i || shadows {
                k
            } else {
                k + 1
            };
            assert(now[j] == profiles[k]);
        } else if let Some(j) = place(now, other) {
            let k = if j < i || shadows {
                j
            } else {
                j - 1
            };
            assert(profiles[k].name == other);
        }
    }
}

/// The patterns of the hints of all profiles but the generic one.
pub open spec fn patterns_of(profiles: Seq<ProfileView>) -> Set<(Seq<u16>, int)>
    decreases profiles.len(),
{
    if profiles.len() == 0 {
        Set::empty()
    } else {
        let before = patterns_of(profiles.drop_last());
        if profiles.last().name == generic() {
            before
        } else {
            with_hints(before, encoded(profiles.last().detection), profiles.len() - 1)
        }
    }
}

pub open spec fn encoded(texts: Seq<Seq<char>>) -> Seq<Seq<u8>> {
    texts.map_values(|t: Seq<char>| encode_utf8(t))
}

/// `w` is the pattern of a hint of the profile.
pub open spec fn has_pattern(profile: ProfileView, w: Seq<u16>) -> bool {
    profile.name != generic() && exists|k: int|
        0 <= k < profile.detection.len() && encode_utf8(profile.detection[k]).len() > 0 && symbols(
            encode_utf8(#[trigger] profile.detection[k]),
        ) == w
}

proof fn lemma_patterns_of(profiles: Seq<ProfileView>)
    ensures
        forall|w: Seq<u16>, p: int| #[trigger]
            patterns_of(profiles).contains((w, p)) == (0 <= p < profiles.len() && has_pattern(
                profiles[p],
                w,
            )),
    decreases profiles.len(),
{
    if profiles.len() > 0 {
        let shorter = profiles.drop_last();
        let n = profiles.len() - 1;
        lemma_patterns_of(shorter);
        let before = patterns_of(shorter);
        let hints = encoded(profiles.last().detection);
        lemma_with_hints(before, hints, n);
        assert forall|w: Seq<u16>, p: int| #[trigger]
            patterns_of(profiles).contains((w, p)) == (0 <= p < profiles.len() && has_pattern(
                profiles[p],
                w,
            )) by {
            assert(before.contains((w, p)) == (0 <= p < shorter.len() && has_pattern(
                shorter[p],
                w,
            )));
            let last = profiles.last();
            if last.name != generic() {
                assert(with_hints(before, hints, n).contains((w, p)) == (before.contains((w, p))
                    || (p == n && exists|k: int|
                    0 <= k < hints.len() && hints[k].len() > 0 && symbols(#[trigger] hints[k])
                        == w)));
                if exists|k: int|
                    0 <= k < hints.len() && hints[k].len() > 0 && symbols(#[trigger] hints[k]) == w {
                    let k = choose|k: int|
                        0 <= k < hints.len() && hints[k].len() > 0 && symbols(#[trigger] hints[k])
                            == w;
                    assert(hints[k] == encode_utf8(last.detection[k]));
                    assert(has_pattern(last, w));
                }
                if has_pattern(last, w) {
                    let k = choose|k: int|
                        0 <= k < last.detection.len() && encode_utf8(last.detection[k]).len() > 0
                            && symbols(encode_utf8(#[trigger] last.detection[k])) == w;
                    assert(hints[k] == encode_utf8(last.detection[k]));
                }
            }
        }
    }
}

/// What the automaton finds are the hints that stand in the text.
proof fn lemma_found_hints(profiles: Seq<ProfileView>, text: Seq<u8>, p: int)
    requires
        0 <= p < profiles.len(),
    ensures
        found(patterns_of(profiles), symbols(text), p) == profiles[p].hinted_by(text),
{
    let patterns = patterns_of(profiles);
    let all = symbols(text);
    lemma_patterns_of(profiles);
    lemma_found_stands(patterns, all, p);
    if found(patterns, all, p) {
        let w = choose|w: Seq<u16>| #[trigger] patterns.contains((w, p)) && stands_in(all, w);
        let k = choose|k: int|
            0 <= k < profiles[p].detection.len() && encode_utf8(profiles[p].detection[k]).len() > 0
                && symbols(encode_utf8(#[trigger] profiles[p].detection[k])) == w;
        let hint = encode_utf8(profiles[p].detection[k]);
        whole_words_are_symbols(text, hint);
        assert(hint_in(text, hint));
    }
    if profiles[p].hinted_by(text) {
        let k = choose|k: int|
            0 <= k < profiles[p].detection.len() && hint_in(
                text,
                encode_utf8(#[trigger] profiles[p].detection[k]),
            );
        let hint = encode_utf8(profiles[p].detection[k]);
        whole_words_are_symbols(text, hint);
        assert(has_pattern(profiles[p], symbols(hint)));
        assert(patterns.contains((symbols(hint), p)));
    }
}

/// All registered profiles.
pub struct ProfileStore {
    profiles: Vec<Profile>,
    detection_matcher: DetectionMatcher,
}

impl View for ProfileStore {
    type V = Seq<ProfileView>;

    closed spec fn view(&self) -> Seq<ProfileView> {
        profile_views(self.profiles@)
    }
}

impl ProfileStore {
    /// The profiles are in order, and the matcher looks for their hints.
    pub closed spec fn wf(self) -> bool {
        &&& by_name(self@)
        &&& self.detection_matcher.wf()
        &&& self.detection_matcher.counted()
        &&& self.detection_matcher.profiles() == self@.len()
        &&& self.detection_matcher.patterns() == patterns_of(self@)
    }
}

/// The profiles of a store are in the order of their names, no name twice.
pub proof fn stores_are_in_order(store: ProfileStore)
    requires
        store.wf(),
    ensures
        by_name(store@),
{
}

/// The priority of a profile; that of user profiles for unknown names.
pub open spec fn priority(profiles: Seq<ProfileView>, name: Seq<char>) -> u16 {
    match lookup(profiles, name) {
        Some(p) => p.runtime.priority,
        None => USER_PROFILE_RUNTIME_PRIORITY,
    }
}

/// `a` comes before `b`: by priority, then by name.
pub open spec fn comes_before(profiles: Seq<ProfileView>, a: Seq<char>, b: Seq<char>) -> bool {
    let pa = priority(profiles, a);
    let pb = priority(profiles, b);
    pa < pb || (pa == pb && text_less(a, b))
}

pub proof fn lemma_comes_before(
    profiles: Seq<ProfileView>,
    a: Seq<char>,
    b: Seq<char>,
    c: Seq<char>,
)
    ensures
        !comes_before(profiles, a, a),
        comes_before(profiles, a, b) || comes_before(profiles, b, a) || a == b,
        comes_before(profiles, a, b) && comes_before(profiles, b, c) ==> comes_before(
            profiles,
            a,
            c,
        ),
        comes_before(profiles, a, b) ==> !comes_before(profiles, b, a),
{
    lemma_text_less_irreflexive(a);
    lemma_text_less_total(a, b);
    if text_less(a, b) && text_less(b, c) {
        lemma_text_less_transitive(a, b, c);
    }
    if text_less(a, b) && text_less(b, a) {
        lemma_text_less_transitive(a, b, a);
    }
}

/// The names are in the order of the profiles, none twice.
pub open spec fn in_order(profiles: Seq<ProfileView>, names: Seq<Seq<char>>) -> bool {
    forall|i: int, j: int|
        0 <= i < j < names.len() ==> comes_before(
            profiles,
            #[trigger] names[i],
            #[trigger] names[j],
        )
}

/// `names` is what the text tells of at startup: the generic profile, then all
/// that it tells, in order.
pub open spec fn is_detection(
    profiles: Seq<ProfileView>,
    text: Seq<char>,
    names: Seq<Seq<char>>,
) -> bool {
    &&& names.len() > 0
    &&& names[0] == generic()
    &&& in_order(profiles, names.skip(1))
    &&& forall|x: Seq<char>|
        (#[trigger] names.skip(1).contains(x)) == (match lookup(profiles, x) {
            Some(p) => p.told_by(text),
            None => false,
        })
}

/// What the text tells of at startup.
pub open spec fn detected(profiles: Seq<ProfileView>, text: Seq<char>) -> Seq<Seq<char>> {
    choose|names: Seq<Seq<char>>| #[trigger] is_detection(profiles, text, names)
}

proof fn lemma_ordered_alike(profiles: Seq<ProfileView>, s: Seq<Seq<char>>, t: Seq<Seq<char>>)
    requires
        in_order(profiles, s),
        in_order(profiles, t),
        forall|x: Seq<char>| #[trigger] s.contains(x) == t.contains(x),
    ensures
        s == t,
    decreases s.len(),
{
    if s.len() == 0 {
        if t.len() > 0 {
            assert(t.contains(t[0]));
            assert(s.contains(t[0]));
        }
        assert(s =~= t);
    } else {
        let a = s.last();
        assert(s.contains(a));
        let j = choose|j: int| 0 <= j < t.len() && t[j] == a;
        let b = t.last();
        assert(t.contains(b));
        assert(s.contains(b));
        let i = choose|i: int| 0 <= i < s.len() && s[i] == b;
        if a != b {
            assert(comes_before(profiles, s[i], s[s.len() - 1]));
            assert(comes_before(profiles, t[j], t[t.len() - 1]));
            lemma_comes_before(profiles, a, b, a);
        }
        let u = s.drop_last();
        let v = t.drop_last();
        assert forall|x: Seq<char>| #[trigger] u.contains(x) == v.contains(x) by {
            lemma_comes_before(profiles, a, a, a);
            if u.contains(x) {
                let k = choose|k: int| 0 <= k < u.len() && u[k] == x;
                assert(comes_before(profiles, s[k], s[s.len() - 1]));
                assert(s.contains(s[k]));
                let m = choose|m: int| 0 <= m < t.len() && t[m] == x;
                assert(v[m] == x);
            }
            if v.contains(x) {
                let k = choose|k: int| 0 <= k < v.len() && v[k] == x;
                assert(comes_before(profiles, t[k], t[t.len() - 1]));
                assert(t.contains(t[k]));
                assert(s.contains(x));
                let m = choose|m: int| 0 <= m < s.len() && s[m] == x;
                assert(u[m] == x);
            }
        }
        lemma_ordered_alike(profiles, u, v);
        assert(s =~= u.push(a));
        assert(t =~= v.push(b));
    }
}

/// A text tells of one list of profiles only.
pub proof fn detection_is_unique(
    profiles: Seq<ProfileView>,
    text: Seq<char>,
    a: Seq<Seq<char>>,
    b: Seq<Seq<char>>,
)
    requires
        is_detection(profiles, text, a),
        is_detection(profiles, text, b),
    ensures
        a == b,
{
    assert forall|x: Seq<char>| #[trigger] a.skip(1).contains(x) == b.skip(1).contains(x) by {}
    lemma_ordered_alike(profiles, a.skip(1), b.skip(1));
    assert(a =~= seq![a[0]] + a.skip(1));
    assert(b =~= seq![b[0]] + b.skip(1));
}

/// How large the metadata of all profiles but `left_out` is: hints, bytes of
/// hints, parents, bytes of parents.
pub open spec fn metadata_of(profiles: Seq<ProfileView>, left_out: Seq<char>) -> (int, int, int, int)
    decreases profiles.len(),
{
    if profiles.len() == 0 {
        (0, 0, 0, 0)
    } else {
        let before = metadata_of(profiles.drop_last(), left_out);
        let p = profiles.last();
        if p.name == left_out {
            before
        } else {
            (
                before.0 + p.detection.len(),
                before.1 + total_bytes(p.detection),
                before.2 + p.inherits.len(),
                before.3 + total_bytes(p.inherits),
            )
        }
    }
}

pub open spec fn store_issue(
    kind: MetadataKind,
    measure: MetadataMeasure,
    actual: int,
    limit: int,
) -> MetadataIssue {
    MetadataIssue { scope: MetadataScope::Store, kind, measure, actual, limit }
}

/// The bound that the store would go over with a profile of such metadata, if
/// any.
pub open spec fn store_overflow(
    profiles: Seq<ProfileView>,
    name: Seq<char>,
    inherits: Seq<Seq<char>>,
    detection: Seq<Seq<char>>,
) -> Option<MetadataIssue> {
    let rest = metadata_of(profiles, name);
    let hints = rest.0 + detection.len();
    let hint_size = rest.1 + total_bytes(detection);
    let parents = rest.2 + inherits.len();
    let parent_size = rest.3 + total_bytes(inherits);
    if hints > MAX_STORE_DETECTION_HINTS {
        Some(
            store_issue(
                MetadataKind::Detection,
                MetadataMeasure::Count,
                hints,
                MAX_STORE_DETECTION_HINTS as int,
            ),
        )
    } else if hint_size > MAX_STORE_DETECTION_BYTES {
        Some(
            store_issue(
                MetadataKind::Detection,
                MetadataMeasure::TotalBytes,
                hint_size,
                MAX_STORE_DETECTION_BYTES as int,
            ),
        )
    } else if parents > MAX_STORE_INHERITANCE_ENTRIES {
        Some(
            store_issue(
                MetadataKind::Inheritance,
                MetadataMeasure::Count,
                parents,
                MAX_STORE_INHERITANCE_ENTRIES as int,
            ),
        )
    } else if parent_size > MAX_STORE_INHERITANCE_BYTES {
        Some(
            store_issue(
                MetadataKind::Inheritance,
                MetadataMeasure::TotalBytes,
                parent_size,
                MAX_STORE_INHERITANCE_BYTES as int,
            ),
        )
    } else {
        None
    }
}

/// A profile of a user.
pub open spec fn user_profile(
    name: Seq<char>,
    inherits: Seq<Seq<char>>,
    detection: Seq<Seq<char>>,
    rules: Seq<RuleView>,
) -> ProfileView {
    ProfileView { name, inherits, detection, runtime: RuntimeView::user(), rules }
}

/// Sum that stops at the largest `usize`.
fn plus(a: usize, b: usize) -> (r: usize)
    ensures
        r == if a + b <= usize::MAX {
            a + b
        } else {
            usize::MAX as int
        },
{
    if b <= usize::MAX - a {
        a + b
    } else {
        usize::MAX
    }
}

/// `n`, or the largest `usize` where it is larger.
pub open spec fn at_most_max(n: int) -> int {
    if n <= usize::MAX {
        n
    } else {
        usize::MAX as int
    }
}

pub proof fn lemma_total_bytes(entries: Seq<Seq<char>>)
    ensures
        total_bytes(entries) >= 0,
    decreases entries.len(),
{
    if entries.len() > 0 {
        lemma_total_bytes(entries.drop_last());
    }
}

fn metadata_bytes(entries: &Vec<String>) -> (r: usize)
    ensures
        r == at_most_max(total_bytes(text_views(entries@))),
{
    let ghost all = text_views(entries@);
    let mut total: usize = 0;
    let mut i: usize = 0;
    assert(all.take(0) =~= Seq::<Seq<char>>::empty());
    while i < entries.len()
        invariant
            i <= entries@.len(),
            all == text_views(entries@),
            total == at_most_max(total_bytes(all.take(i as int))),
        decreases entries@.len() - i,
    {
        assert(all.take(i + 1).drop_last() =~= all.take(i as int));
        assert(all[i as int] == entries@[i as int]@);
        proof {
            lemma_total_bytes(all.take(i as int));
        }
        total = plus(total, text_byte_len(entries[i].as_str()));
        i = i + 1;
    }
    assert(all.take(i as int) =~= all);
    total
}

fn over(kind: MetadataKind, measure: MetadataMeasure, actual: usize, limit: usize) -> (r:
    ProfileMetadataLimitError)
    ensures
        r@ == store_issue(kind, measure, actual as int, limit as int),
{
    ProfileMetadataLimitError { scope: MetadataScope::Store, kind, measure, actual, limit }
}

/// The bound that the issue is about, where all it measures fits in `usize`.
pub open spec fn same_issue(a: MetadataIssue, b: MetadataIssue) -> bool {
    a == (MetadataIssue { actual: at_most_max(b.actual), ..b })
}

impl ProfileStore {
    fn rebuild_detection_matcher(&mut self)
        requires
            by_name(old(self)@),
        ensures
            final(self).wf(),
            final(self)@ == old(self)@,
    {
        let ghost all = self@;
        let count = self.profiles.len();
        let mut matcher = DetectionMatcher::new(count);
        let mut i: usize = 0;
        assert(all.take(0) =~= Seq::<ProfileView>::empty());
        while i < self.profiles.len()
            invariant
                i <= self.profiles@.len(),
                count == self.profiles@.len(),
                all == self@,
                *self == *old(self),
                all.len() == count,
                matcher.tree(),
                matcher.bare(),
                matcher.counted(),
                matcher.profiles() == count,
                matcher.hinted() <= i,
                matcher.patterns() == patterns_of(all.take(i as int)),
            decreases self.profiles@.len() - i,
        {
            assert(all.take(i + 1).drop_last() =~= all.take(i as int));
            assert(all[i as int] == self.profiles@[i as int]@);
            if !same_text(self.profiles[i].name.as_str(), "generic") {
                proof {
                    lemma_patterns_of(all.take(i as int));
                    assert forall|w: Seq<u16>| !#[trigger] matcher.patterns().contains(
                        (w, i as int),
                    ) by {}
                    assert(encoded(all[i as int].detection) =~= hint_bytes(
                        self.profiles@[i as int].detection@,
                    ));
                }
                matcher.add_hints(&self.profiles[i].detection, i);
            }
            i = i + 1;
        }
        assert(all.take(i as int) =~= all);
        matcher.build_failure_links();
        self.detection_matcher = matcher;
    }

    /// What finds the hints of the profiles.
    pub fn detection_matcher(&self) -> (r: &DetectionMatcher)
        requires
            self.wf(),
        ensures
            r.wf(),
            r.counted(),
            r.profiles() == self@.len(),
            r.patterns() == patterns_of(self@),
    {
        &self.detection_matcher
    }

    /// A store with the same profiles.
    pub fn duplicate(&self) -> (r: ProfileStore)
        requires
            self.wf(),
        ensures
            r.wf(),
            r@ == self@,
    {
        let ghost all = self@;
        let mut profiles: Vec<Profile> = Vec::new();
        let mut i: usize = 0;
        while i < self.profiles.len()
            invariant
                i <= self.profiles@.len(),
                all == self@,
                profile_views(profiles@) == all.take(i as int),
            decreases self.profiles@.len() - i,
        {
            let ghost before = profile_views(profiles@);
            assert(all[i as int] == self.profiles@[i as int]@);
            profiles.push(self.profiles[i].duplicate());
            assert(profile_views(profiles@) =~= before.push(all[i as int]));
            assert(all.take(i + 1) =~= all.take(i as int).push(all[i as int]));
            i = i + 1;
        }
        assert(all.take(i as int) =~= all);
        let mut r = ProfileStore { profiles, detection_matcher: DetectionMatcher::new(0) };
        r.rebuild_detection_matcher();
        r
    }

    /// A store without profiles.
    pub fn new() -> (r: ProfileStore)
        ensures
            r.wf(),
            r@.len() == 0,
    {
        let mut r = ProfileStore {
            profiles: Vec::new(),
            detection_matcher: DetectionMatcher::new(0),
        };
        r.rebuild_detection_matcher();
        r
    }

    /// How many profiles are registered.
    pub fn len(&self) -> (r: usize)
        ensures
            r == self@.len(),
    {
        self.profiles.len()
    }

    /// The profile at `i`, in the order of names.
    pub fn nth(&self, i: usize) -> (r: &Profile)
        requires
            i < self@.len(),
        ensures
            r@ == self@[i as int],
    {
        &self.profiles[i]
    }

    /// The names of the profiles, in order.
    pub fn names(&self) -> (r: Vec<String>)
        ensures
            text_views(r@) == self@.map_values(|p: ProfileView| p.name),
            self.wf() ==> ascending(text_views(r@)),
    {
        let ghost all = self@.map_values(|p: ProfileView| p.name);
        let mut out: Vec<String> = Vec::new();
        let mut i: usize = 0;
        while i < self.profiles.len()
            invariant
                i <= self.profiles@.len(),
                all == self@.map_values(|p: ProfileView| p.name),
                text_views(out@) == all.take(i as int),
            decreases self.profiles@.len() - i,
        {
            let ghost before = text_views(out@);
            out.push(copy_text(self.profiles[i].name.as_str()));
            assert(self@[i as int] == self.profiles@[i as int]@);
            assert(text_views(out@) =~= before.push(all[i as int]));
            assert(all.take(i + 1) =~= all.take(i as int).push(all[i as int]));
            i = i + 1;
        }
        assert(all.take(i as int) =~= all);
        assert(forall|k: int| 0 <= k < all.len() ==> #[trigger] all[k] == self@[k].name);
        out
    }

    fn rank(&self, name: &str) -> (r: usize)
        ensures
            r == rank_from(self@, name@, 0),
            r <= self@.len(),
    {
        let mut i: usize = 0;
        while i < self.profiles.len() && text_is_less(self.profiles[i].name.as_str(), name)
            invariant
                i <= self.profiles@.len(),
                rank_from(self@, name@, 0) == rank_from(self@, name@, i as int),
            decreases self.profiles@.len() - i,
        {
            assert(self@[i as int] == self.profiles@[i as int]@);
            i = i + 1;
        }
        assert(i < self.profiles@.len() ==> self@[i as int] == self.profiles@[i as int]@);
        i
    }

    /// Where the profile `name` stands in the order of names.
    pub fn position(&self, name: &str) -> (r: Option<usize>)
        ensures
            match r {
                Some(i) => place(self@, name@) == Some(i as int) && i < self@.len(),
                None => place(self@, name@) is None,
            },
    {
        let i = self.rank(name);
        if i < self.profiles.len() {
            assert(self@[i as int] == self.profiles@[i as int]@);
            if same_text(self.profiles[i].name.as_str(), name) {
                return Some(i);
            }
        }
        None
    }

    /// The profile `name`.
    pub fn profile(&self, name: &str) -> (r: Option<&Profile>)
        ensures
            match r {
                Some(p) => lookup(self@, name@) == Some(p@),
                None => lookup(self@, name@) is None,
            },
    {
        match self.position(name) {
            Some(i) => {
                assert(self@[i as int] == self.profiles@[i as int]@);
                Some(&self.profiles[i])
            },
            None => None,
        }
    }

    /// Registers a profile; tells whether one of that name was there.
    pub fn insert(&mut self, profile: Profile) -> (r: bool)
        requires
            old(self).wf(),
        ensures
            final(self).wf(),
            final(self)@ == with_profile(old(self)@, profile@),
            r == (lookup(old(self)@, profile@.name) is Some),
    {
        let ghost first = self@;
        let ghost added = profile@;
        let i = self.rank(profile.name.as_str());
        proof {
            registering_a_profile(first, added, added.name);
        }
        let shadows = match self.position(profile.name.as_str()) {
            Some(_) => true,
            None => false,
        };
        if shadows {
            self.profiles.set(i, profile);
            assert(self@ =~= first.update(i as int, added));
        } else {
            self.profiles.insert(i, profile);
            assert(self@ =~= first.insert(i as int, added));
        }
        self.rebuild_detection_matcher();
        shadows
    }

    /// Registers a profile that the program itself made; tells whether one of
    /// that name was there.
    pub fn insert_profile(
        &mut self,
        name: String,
        inherits: Vec<String>,
        detection: Vec<String>,
        rules: Vec<RuleSpec>,
    ) -> (r: bool)
        requires
            old(self).wf(),
        ensures
            final(self).wf(),
            final(self)@ == with_profile(
                old(self)@,
                user_profile(
                    name@,
                    normalized_freely(text_views(inherits@), false),
                    normalized_freely(text_views(detection@), true),
                    rule_views(rules@),
                ),
            ),
            r == (lookup(old(self)@, name@) is Some),
    {
        let (inherits, detection) = normalize_profile_metadata_unbounded(&inherits, &detection);
        self.insert(
            Profile { name, inherits, detection, runtime: ProfileRuntimeMeta::default(), rules },
        )
    }

    /// Registers a profile of a user within the bounds; tells whether one of
    /// that name was there.
    pub fn try_insert_user_profile(
        &mut self,
        name: String,
        inherits: Vec<String>,
        detection: Vec<String>,
        rules: Vec<RuleSpec>,
    ) -> (r: Result<bool, ProfileMetadataLimitError>)
        requires
            old(self).wf(),
        ensures
            final(self).wf(),
            match normalized_profile(text_views(inherits@), text_views(detection@)) {
                Err(issue) => final(self)@ == old(self)@ && match r {
                    Err(e) => e@ == issue,
                    Ok(_) => false,
                },
                Ok((parents, hints)) => match store_overflow(old(self)@, name@, parents, hints) {
                    Some(issue) => final(self)@ == old(self)@ && match r {
                        Err(e) => same_issue(e@, issue),
                        Ok(_) => false,
                    },
                    None => final(self)@ == with_profile(
                        old(self)@,
                        user_profile(name@, parents, hints, rule_views(rules@)),
                    ) && match r {
                        Err(_) => false,
                        Ok(shadows) => shadows == (lookup(old(self)@, name@) is Some),
                    },
                },
            },
    {
        let (inherits, detection) = match normalize_and_validate_profile_metadata(
            &inherits,
            &detection,
        ) {
            Ok(lists) => lists,
            Err(issue) => return Err(issue),
        };
        match self.validate_store_metadata_limits(name.as_str(), &inherits, &detection) {
            Ok(()) => {},
            Err(issue) => return Err(issue),
        }
        Ok(
            self.insert(
                Profile { name, inherits, detection, runtime: ProfileRuntimeMeta::default(), rules },
            ),
        )
    }

    fn validate_store_metadata_limits(
        &self,
        replaced_name: &str,
        inherits: &Vec<String>,
        detection: &Vec<String>,
    ) -> (r: Result<(), ProfileMetadataLimitError>)
        ensures
            match store_overflow(
                self@,
                replaced_name@,
                text_views(inherits@),
                text_views(detection@),
            ) {
                Some(issue) => match r {
                    Err(e) => same_issue(e@, issue),
                    Ok(_) => false,
                },
                None => r is Ok,
            },
    {
        let ghost all = self@;
        let mut parents: usize = inherits.len();
        let mut parent_size: usize = metadata_bytes(inherits);
        let mut hints: usize = detection.len();
        let mut hint_size: usize = metadata_bytes(detection);
        let mut i: usize = 0;
        proof {
            assert(all.take(0) =~= Seq::<ProfileView>::empty());
            assert(text_views(inherits@).len() == inherits@.len());
            assert(text_views(detection@).len() == detection@.len());
            lemma_total_bytes(text_views(inherits@));
            lemma_total_bytes(text_views(detection@));
        }
        while i < self.profiles.len()
            invariant
                i <= self.profiles@.len(),
                all == self@,
                all.len() == self.profiles@.len(),
                total_bytes(text_views(inherits@)) >= 0,
                total_bytes(text_views(detection@)) >= 0,
                metadata_of(all.take(i as int), replaced_name@).0 >= 0,
                metadata_of(all.take(i as int), replaced_name@).1 >= 0,
                metadata_of(all.take(i as int), replaced_name@).2 >= 0,
                metadata_of(all.take(i as int), replaced_name@).3 >= 0,
                hints == at_most_max(
                    metadata_of(all.take(i as int), replaced_name@).0 + detection@.len(),
                ),
                hint_size == at_most_max(
                    metadata_of(all.take(i as int), replaced_name@).1 + total_bytes(
                        text_views(detection@),
                    ),
                ),
                parents == at_most_max(
                    metadata_of(all.take(i as int), replaced_name@).2 + inherits@.len(),
                ),
                parent_size == at_most_max(
                    metadata_of(all.take(i as int), replaced_name@).3 + total_bytes(
                        text_views(inherits@),
                    ),
                ),
            decreases self.profiles@.len() - i,
        {
            assert(all.take(i + 1).drop_last() =~= all.take(i as int));
            assert(all[i as int] == self.profiles@[i as int]@);
            let p = &self.profiles[i];
            if !same_text(p.name.as_str(), replaced_name) {
                proof {
                    lemma_total_bytes(all[i as int].inherits);
                    lemma_total_bytes(all[i as int].detection);
                    assert(all[i as int].inherits.len() == p.inherits@.len());
                    assert(all[i as int].detection.len() == p.detection@.len());
                }
                parents = plus(parents, p.inherits.len());
                parent_size = plus(parent_size, metadata_bytes(&p.inherits));
                hints = plus(hints, p.detection.len());
                hint_size = plus(hint_size, metadata_bytes(&p.detection));
            }
            i = i + 1;
        }
        assert(all.take(i as int) =~= all);
        if hints > MAX_STORE_DETECTION_HINTS {
            return Err(
                over(
                    MetadataKind::Detection,
                    MetadataMeasure::Count,
                    hints,
                    MAX_STORE_DETECTION_HINTS,
                ),
            );
        }
        if hint_size > MAX_STORE_DETECTION_BYTES {
            return Err(
                over(
                    MetadataKind::Detection,
                    MetadataMeasure::TotalBytes,
                    hint_size,
                    MAX_STORE_DETECTION_BYTES,
                ),
            );
        }
        if parents > MAX_STORE_INHERITANCE_ENTRIES {
            return Err(
                over(
                    MetadataKind::Inheritance,
                    MetadataMeasure::Count,
                    parents,
                    MAX_STORE_INHERITANCE_ENTRIES,
                ),
            );
        }
        if parent_size > MAX_STORE_INHERITANCE_BYTES {
            return Err(
                over(
                    MetadataKind::Inheritance,
                    MetadataMeasure::TotalBytes,
                    parent_size,
                    MAX_STORE_INHERITANCE_BYTES,
                ),
            );
        }
        Ok(())
    }

    /// The priority of a profile.
    pub fn profile_priority(&self, name: &str) -> (r: u16)
        ensures
            r == priority(self@, name@),
    {
        match self.profile(name) {
            Some(p) => p.runtime.priority,
            None => USER_PROFILE_RUNTIME_PRIORITY,
        }
    }

    /// Whether `a` comes before `b`.
    pub fn is_before(&self, a: &str, b: &str) -> (r: bool)
        ensures
            r == comes_before(self@, a@, b@),
    {
        let pa = self.profile_priority(a);
        let pb = self.profile_priority(b);
        pa < pb || (pa == pb && text_is_less(a, b))
    }

    /// Puts a name in its place among names that are in order.
    fn insert_in_order(&self, names: &mut Vec<String>, name: String)
        requires
            in_order(self@, text_views(old(names)@)),
            !text_views(old(names)@).contains(name@),
        ensures
            in_order(self@, text_views(final(names)@)),
            forall|x: Seq<char>|
                text_views(final(names)@).contains(x) == (#[trigger] text_views(
                    old(names)@,
                ).contains(x) || x == name@),
    {
        let ghost was = text_views(names@);
        let mut i: usize = 0;
        while i < names.len() && self.is_before(names[i].as_str(), name.as_str())
            invariant
                i <= names@.len(),
                was == text_views(names@),
                forall|k: int| 0 <= k < i ==> comes_before(self@, #[trigger] was[k], name@),
            decreases names@.len() - i,
        {
            assert(was[i as int] == names@[i as int]@);
            i = i + 1;
        }
        let ghost x = name@;
        proof {
            if i < was.len() {
                assert(was[i as int] == names@[i as int]@);
                assert(was.contains(was[i as int]));
                lemma_comes_before(self@, x, was[i as int], x);
                lemma_comes_before(self@, was[i as int], x, x);
            }
        }
        names.insert(i, name);
        proof {
            let now = text_views(names@);
            assert(now =~= was.insert(i as int, x));
            assert forall|a: int, b: int| 0 <= a < b < now.len() implies comes_before(
                self@,
                #[trigger] now[a],
                #[trigger] now[b],
            ) by {
                let u = if a < i {
                    a
                } else {
                    a - 1
                };
                let v = if b < i {
                    b
                } else {
                    b - 1
                };
                if a != i && b != i {
                    assert(comes_before(self@, was[u], was[v]));
                } else if b == i {
                    assert(comes_before(self@, was[a], x));
                } else if v > i {
                    assert(comes_before(self@, was[i as int], was[v]));
                    lemma_comes_before(self@, x, was[i as int], was[v]);
                }
            }
            assert forall|y: Seq<char>|
                now.contains(y) == (#[trigger] was.contains(y) || y == x) by {
                if was.contains(y) {
                    let k = choose|k: int| 0 <= k < was.len() && was[k] == y;
                    let j = if k < i {
                        k
                    } else {
                        k + 1
                    };
                    assert(now[j] == y);
                }
                assert(now[i as int] == x);
                if now.contains(y) && y != x {
                    let j = choose|j: int| 0 <= j < now.len() && now[j] == y;
                    let k = if j < i {
                        j
                    } else {
                        j - 1
                    };
                    assert(was[k] == y);
                }
            }
        }
    }

    /// The profiles that a text tells of at startup: the generic one, then all
    /// that a hint, a signal or a prompt tells, in order.
    pub fn detect_profiles(&self, sample: &str) -> (r: Vec<String>)
        requires
            self.wf(),
        ensures
            is_detection(self@, sample@, text_views(r@)),
            text_views(r@) == detected(self@, sample@),
    {
        let ghost all = self@;
        let hint_matches = self.detection_matcher.matching_profiles(sample.as_bytes());
        let text = chars_of(sample);
        let mut detected: Vec<String> = Vec::new();
        let mut i: usize = 0;
        while i < self.profiles.len()
            invariant
                i <= self.profiles@.len(),
                self.wf(),
                all == self@,
                all.len() == self.profiles@.len(),
                text@ == sample@,
                hint_matches@.len() == all.len(),
                forall|p: int|
                    0 <= p < all.len() ==> #[trigger] hint_matches@[p] == found(
                        patterns_of(all),
                        symbols(encode_utf8(sample@)),
                        p,
                    ),
                in_order(all, text_views(detected@)),
                forall|x: Seq<char>|
                    (#[trigger] text_views(detected@).contains(x)) == told_among(
                        all,
                        sample@,
                        i as int,
                        x,
                    ),
            decreases self.profiles@.len() - i,
        {
            let p = &self.profiles[i];
            assert(all[i as int] == p@);
            proof {
                lemma_found_hints(all, encode_utf8(sample@), i as int);
                if told_among(all, sample@, i as int, p@.name) {
                    let k = choose|k: int|
                        0 <= k < i && (#[trigger] all[k]).name == p@.name && all[k].told_by(
                            sample@,
                        );
                    assert(text_less(all[k].name, all[i as int].name));
                    lemma_text_less_irreflexive(p@.name);
                }
            }
            let ghost was = text_views(detected@);
            let told = !same_text(p.name.as_str(), "generic") && (hint_matches[i]
                || p.runtime.matches_strong_signal(text.as_slice())
                || p.runtime.matches_startup_prompt(text.as_slice()));
            if told {
                self.insert_in_order(&mut detected, copy_text(p.name.as_str()));
            }
            assert forall|x: Seq<char>| (#[trigger] text_views(detected@).contains(x))
                == told_among(all, sample@, i + 1, x) by {
                assert(was.contains(x) == told_among(all, sample@, i as int, x));
                if told_among(all, sample@, i as int, x) {
                    let k = choose|k: int|
                        0 <= k < i && (#[trigger] all[k]).name == x && all[k].told_by(sample@);
                    assert(all[k].name == x);
                }
                if told_among(all, sample@, i + 1, x) {
                    let k = choose|k: int|
                        0 <= k < i + 1 && (#[trigger] all[k]).name == x && all[k].told_by(sample@);
                    assert(k < i || k == i);
                }
                if told && x == p@.name {
                    assert(all[i as int].name == x);
                }
            }
            i = i + 1;
        }
        let mut r: Vec<String> = Vec::new();
        r.push(copy_text("generic"));
        let ghost tail = text_views(detected@);
        r.append(&mut detected);
        proof {
            assert(text_views(r@).skip(1) =~= tail);
            assert forall|x: Seq<char>| (#[trigger] text_views(r@).skip(1).contains(x)) == (
            match lookup(self@, x) {
                Some(p) => p.told_by(sample@),
                None => false,
            }) by {
                lemma_place(all, x);
                assert(tail.contains(x) == told_among(all, sample@, all.len() as int, x));
                if told_among(all, sample@, all.len() as int, x) {
                    let k = choose|k: int|
                        0 <= k < all.len() && (#[trigger] all[k]).name == x && all[k].told_by(
                            sample@,
                        );
                    assert(place(all, x) == Some(k));
                }
                if let Some(k) = place(all, x) {
                    assert(all[k].name == x);
                }
            }
            assert(text_views(r@)[0] == r@[0]@);
            assert(is_detection(self@, sample@, text_views(r@)));
            detection_is_unique(self@, sample@, text_views(r@), self::detected(self@, sample@));
        }
        r
    }
}

/// One of the first `n` profiles has the name `x` and is told by the text.
pub open spec fn told_among(profiles: Seq<ProfileView>, text: Seq<char>, n: int, x: Seq<char>) -> bool {
    exists|k: int|
        0 <= k < n && (#[trigger] profiles[k]).name == x && profiles[k].told_by(text)
}

impl Default for ProfileStore {
    fn default() -> (r: ProfileStore)
        ensures
            r.wf(),
            r@.len() == 0,
    {
        ProfileStore::new()
    }
}

} // verus!
