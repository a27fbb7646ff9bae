//! Choosing one profile among several: by what speaks for it, then by
//! priority and name.

use vstd::prelude::*;

use crate::profiles::{
    comes_before, generic, lemma_comes_before, lookup, place, rank_from, unexcluded, ProfileStore,
    ProfileView,
};
use crate::signals::{some_signal, PromptConfidence};
use crate::text::{copy_text, same_text, text_views};

verus! {

/// What has to speak for a profile.
#[derive(Clone, Copy, Debug, PartialEq, Eq, Structural)]
pub enum Evidence {
    /// Nothing.
    Name,
    /// A strong signal in the text.
    Signal,
    /// A prompt in the text.
    Prompt,
}

/// The profile `name` is no longer the active one, is not the generic one, and
/// has the evidence for it.
pub open spec fn eligible(
    profiles: Seq<ProfileView>,
    evidence: Evidence,
    text: Seq<char>,
    active: Option<Seq<char>>,
    name: Seq<char>,
) -> bool {
    &&& name != generic()
    &&& active != Some(name)
    &&& match evidence {
        Evidence::Name => true,
        Evidence::Signal => match lookup(profiles, name) {
            Some(p) => some_signal(p.runtime.strong_signals, text),
            None => false,
        },
        Evidence::Prompt => match lookup(profiles, name) {
            Some(p) => p.runtime.runtime_prompt.text(text),
            None => false,
        },
    }
}

/// The profiles without the signals that speak against them.
pub open spec fn all_unexcluded(profiles: Seq<ProfileView>) -> Seq<ProfileView> {
    profiles.map_values(|p: ProfileView| unexcluded(p))
}

proof fn lemma_rank_unexcluded(profiles: Seq<ProfileView>, name: Seq<char>, i: int)
    requires
        0 <= i,
    ensures
        rank_from(all_unexcluded(profiles), name, i) == rank_from(profiles, name, i),
    decreases profiles.len() - i,
{
    if i < profiles.len() {
        assert(all_unexcluded(profiles)[i].name == profiles[i].name);
        lemma_rank_unexcluded(profiles, name, i + 1);
    }
}

/// Signals that speak against a profile have no say in which profile output
/// changes to.
pub proof fn exclusions_block_no_change(
    profiles: Seq<ProfileView>,
    evidence: Evidence,
    text: Seq<char>,
    active: Option<Seq<char>>,
    name: Seq<char>,
)
    ensures
        eligible(all_unexcluded(profiles), evidence, text, active, name) == eligible(
            profiles,
            evidence,
            text,
            active,
            name,
        ),
{
    let all = all_unexcluded(profiles);
    lemma_rank_unexcluded(profiles, name, 0);
    assert(place(all, name) == place(profiles, name)) by {
        let i = rank_from(profiles, name, 0);
        if 0 <= i < profiles.len() {
            assert(all[i].name == profiles[i].name);
        }
    }
    if let Some(i) = place(profiles, name) {
        assert(all[i] == unexcluded(profiles[i]));
    }
}

/// `r` is the first of `names`, by priority and name, that is eligible.
pub open spec fn is_choice(
    profiles: Seq<ProfileView>,
    names: Seq<Seq<char>>,
    evidence: Evidence,
    text: Seq<char>,
    active: Option<Seq<char>>,
    r: Option<Seq<char>>,
) -> bool {
    match r {
        Some(x) => names.contains(x) && eligible(profiles, evidence, text, active, x) && forall|
            k: int,
        |
            0 <= k < names.len() && eligible(profiles, evidence, text, active, #[trigger] names[k])
                ==> !comes_before(profiles, names[k], x),
        None => forall|k: int|
            0 <= k < names.len() ==> !eligible(
                profiles,
                evidence,
                text,
                active,
                #[trigger] names[k],
            ),
    }
}

/// There is at most one choice.
pub proof fn choice_is_unique(
    profiles: Seq<ProfileView>,
    names: Seq<Seq<char>>,
    evidence: Evidence,
    text: Seq<char>,
    active: Option<Seq<char>>,
    a: Option<Seq<char>>,
    b: Option<Seq<char>>,
)
    requires
        is_choice(profiles, names, evidence, text, active, a),
        is_choice(profiles, names, evidence, text, active, b),
    ensures
        a == b,
{
    if let Some(x) = a {
        let i = choose|i: int| 0 <= i < names.len() && names[i] == x;
        assert(eligible(profiles, evidence, text, active, names[i]));
        if let Some(y) = b {
            let j = choose|j: int| 0 <= j < names.len() && names[j] == y;
            assert(eligible(profiles, evidence, text, active, names[j]));
            lemma_comes_before(profiles, x, y, x);
        }
    } else if let Some(y) = b {
        let j = choose|j: int| 0 <= j < names.len() && names[j] == y;
        assert(eligible(profiles, evidence, text, active, names[j]));
    }
}

/// The first of `names`, by priority and name, that is eligible.
pub open spec fn chosen(
    profiles: Seq<ProfileView>,
    names: Seq<Seq<char>>,
    evidence: Evidence,
    text: Seq<char>,
    active: Option<Seq<char>>,
) -> Option<Seq<char>> {
    choose|r: Option<Seq<char>>| #[trigger]
        is_choice(profiles, names, evidence, text, active, r)
}

/// The first of `names` besides the generic profile.
pub open spec fn specific(profiles: Seq<ProfileView>, names: Seq<Seq<char>>) -> Option<Seq<char>> {
    chosen(profiles, names, Evidence::Name, Seq::empty(), None)
}

pub open spec fn option_text(s: Option<&str>) -> Option<Seq<char>> {
    match s {
        Some(t) => Some(t@),
        None => None,
    }
}

pub open spec fn option_string(s: Option<String>) -> Option<Seq<char>> {
    match s {
        Some(t) => Some(t@),
        None => None,
    }
}

/// One prompt is enough to change to the profile.
pub open spec fn switches_at_once(
    profiles: Seq<ProfileView>,
    name: Seq<char>,
    remote: bool,
    at_baseline: bool,
) -> bool {
    match lookup(profiles, name) {
        Some(p) => match p.runtime.prompt_confidence {
            PromptConfidence::Repeated => false,
            PromptConfidence::SingleAfterRemoteHint => remote,
            PromptConfidence::SingleFromBaselineOrRemoteHint => remote || at_baseline,
        },
        None => false,
    }
}

/// The profile can be that of the local shell.
pub open spec fn is_local(profiles: Seq<ProfileView>, name: Seq<char>) -> bool {
    match lookup(profiles, name) {
        Some(p) => p.runtime.local_baseline,
        None => false,
    }
}

/// All the profiles can be those of the local shell.
pub open spec fn all_local(profiles: Seq<ProfileView>, names: Seq<Seq<char>>) -> bool {
    forall|k: int| 0 <= k < names.len() ==> is_local(profiles, #[trigger] names[k])
}

/// The generic profile and nothing else.
pub open spec fn only_generic(names: Seq<Seq<char>>) -> bool {
    names.len() == 1 && names[0] == generic()
}

/// Whether the generic profile is all that is selected.
pub fn is_generic_profile_set(profiles: &Vec<String>) -> (r: bool)
    ensures
        r == only_generic(text_views(profiles@)),
{
    assert(text_views(profiles@).len() == profiles@.len());
    if profiles.len() != 1 {
        return false;
    }
    assert(text_views(profiles@)[0] == profiles@[0]@);
    same_text(profiles[0].as_str(), "generic")
}

impl ProfileStore {
    fn is_eligible(&self, evidence: Evidence, text: &[char], active: Option<&str>, name: &str) -> (r:
        bool)
        ensures
            r == eligible(self@, evidence, text@, option_text(active), name@),
    {
        if same_text(name, "generic") {
            return false;
        }
        if let Some(active) = active {
            if same_text(active, name) {
                return false;
            }
        }
        match evidence {
            Evidence::Name => true,
            Evidence::Signal => match self.profile(name) {
                Some(p) => p.runtime.matches_strong_signal(text),
                None => false,
            },
            Evidence::Prompt => match self.profile(name) {
                Some(p) => p.runtime.matches_runtime_prompt(text),
                None => false,
            },
        }
    }

    fn choose_profile(
        &self,
        names: &Vec<String>,
        evidence: Evidence,
        text: &[char],
        active: Option<&str>,
    ) -> (r: Option<String>)
        ensures
            is_choice(
                self@,
                text_views(names@),
                evidence,
                text@,
                option_text(active),
                option_string(r),
            ),
            option_string(r) == chosen(
                self@,
                text_views(names@),
                evidence,
                text@,
                option_text(active),
            ),
    {
        let ghost all = text_views(names@);
        let ghost profiles = self@;
        let ghost act = option_text(active);
        let mut best: Option<usize> = None;
        let mut i: usize = 0;
        while i < names.len()
            invariant
                i <= names@.len(),
                all == text_views(names@),
                all.len() == names@.len(),
                profiles == self@,
                act == option_text(active),
                match best {
                    Some(b) => b < i && eligible(profiles, evidence, text@, act, all[b as int])
                        && forall|k: int|
                        0 <= k < i && eligible(profiles, evidence, text@, act, #[trigger] all[k])
                            ==> !comes_before(profiles, all[k], all[b as int]),
                    None => forall|k: int|
                        0 <= k < i ==> !eligible(profiles, evidence, text@, act, #[trigger] all[k]),
                },
            decreases names@.len() - i,
        {
            let name = names[i].as_str();
            assert(all[i as int] == name@);
            if self.is_eligible(evidence, text, active, name) {
                match best {
                    Some(b) => {
                        let other = names[b].as_str();
                        assert(all[b as int] == other@);
                        if self.is_before(name, other) {
                            proof {
                                assert forall|k: int|
                                    0 <= k < i + 1 && eligible(
                                        profiles,
                                        evidence,
                                        text@,
                                        act,
                                        #[trigger] all[k],
                                    ) implies !comes_before(profiles, all[k], name@) by {
                                    lemma_comes_before(profiles, all[k], name@, other@);
                                }
                            }
                            best = Some(i);
                        }
                    },
                    None => {
                        proof {
                            lemma_comes_before(profiles, name@, name@, name@);
                        }
                        best = Some(i);
                    },
                }
            }
            i = i + 1;
        }
        let r = match best {
            Some(b) => {
                assert(all[b as int] == names@[b as int]@);
                assert(all.contains(all[b as int]));
                Some(copy_text(names[b].as_str()))
            },
            None => None,
        };
        proof {
            assert(is_choice(profiles, all, evidence, text@, act, option_string(r)));
            choice_is_unique(
                profiles,
                all,
                evidence,
                text@,
                act,
                option_string(r),
                chosen(profiles, all, evidence, text@, act),
            );
        }
        r
    }

    /// The first profile besides the generic one.
    pub fn active_specific_profile(&self, profiles: &Vec<String>) -> (r: Option<String>)
        ensures
            is_choice(
                self@,
                text_views(profiles@),
                Evidence::Name,
                Seq::empty(),
                None,
                option_string(r),
            ),
            option_string(r) == specific(self@, text_views(profiles@)),
    {
        let none: Vec<char> = Vec::new();
        assert(none@ =~= Seq::<char>::empty());
        self.choose_profile(profiles, Evidence::Name, none.as_slice(), None)
    }

    /// The profile that a strong signal in the text changes to.
    pub fn strong_transition_profile(
        &self,
        detected: &Vec<String>,
        text: &[char],
        active_profile: Option<&str>,
    ) -> (r: Option<String>)
        ensures
            is_choice(
                self@,
                text_views(detected@),
                Evidence::Signal,
                text@,
                option_text(active_profile),
                option_string(r),
            ),
            option_string(r) == chosen(
                self@,
                text_views(detected@),
                Evidence::Signal,
                text@,
                option_text(active_profile),
            ),
    {
        self.choose_profile(detected, Evidence::Signal, text, active_profile)
    }

    /// The profile that a prompt in the text may change to.
    pub fn prompt_transition_profile(
        &self,
        detected: &Vec<String>,
        text: &[char],
        active_profile: Option<&str>,
    ) -> (r: Option<String>)
        ensures
            is_choice(
                self@,
                text_views(detected@),
                Evidence::Prompt,
                text@,
                option_text(active_profile),
                option_string(r),
            ),
            option_string(r) == chosen(
                self@,
                text_views(detected@),
                Evidence::Prompt,
                text@,
                option_text(active_profile),
            ),
    {
        self.choose_profile(detected, Evidence::Prompt, text, active_profile)
    }

    /// Whether one prompt is enough to change to the profile.
    pub fn prompt_switches_on_first_detection(
        &self,
        profile_name: &str,
        remote_candidate: bool,
        at_baseline: bool,
    ) -> (r: bool)
        ensures
            r == switches_at_once(self@, profile_name@, remote_candidate, at_baseline),
    {
        match self.profile(profile_name) {
            Some(p) => match p.runtime.prompt_confidence {
                PromptConfidence::Repeated => false,
                PromptConfidence::SingleAfterRemoteHint => remote_candidate,
                PromptConfidence::SingleFromBaselineOrRemoteHint => remote_candidate || at_baseline,
            },
            None => false,
        }
    }

    /// Whether the profile can be that of the local shell.
    pub fn is_local_baseline_profile(&self, profile_name: &str) -> (r: bool)
        ensures
            r == is_local(self@, profile_name@),
    {
        match self.profile(profile_name) {
            Some(p) => p.runtime.local_baseline,
            None => false,
        }
    }

    /// Whether all the profiles can be those of the local shell.
    pub fn profiles_are_local_baseline(&self, profiles: &Vec<String>) -> (r: bool)
        ensures
            r == all_local(self@, text_views(profiles@)),
    {
        let ghost all = text_views(profiles@);
        let mut i: usize = 0;
        while i < profiles.len()
            invariant
                i <= profiles@.len(),
                all == text_views(profiles@),
                forall|k: int| 0 <= k < i ==> is_local(self@, #[trigger] all[k]),
            decreases profiles@.len() - i,
        {
            assert(all[i as int] == profiles@[i as int]@);
            if !self.is_local_baseline_profile(profiles[i].as_str()) {
                assert(!is_local(self@, all[i as int]));
                return false;
            }
            i = i + 1;
        }
        true
    }
}

} // verus!
