//! Inheritance of profiles: which rules a profile brings, in which order, and
//! what is wrong with an inheritance graph.

use vstd::prelude::*;
use vstd::string::*;

use crate::config::{
    append_rules, rule_views, ConfigError, ConfigIssue, PrismConfig, RuleSpec, RuleView,
};
use crate::profiles::{lookup, place, ProfileStore, ProfileView};
use crate::text::{
    concat3, copy_text, lemma_text_less_irreflexive, lemma_text_less_total,
    lemma_text_less_transitive, same_text, text_is_less, text_less, text_views,
};

verus! {

/// Where `name` stands or would stand among names in order, from `i` on.
pub open spec fn name_rank(names: Seq<Seq<char>>, name: Seq<char>, i: int) -> int
    decreases names.len() - i,
{
    if 0 <= i < names.len() && text_less(names[i], name) {
        name_rank(names, name, i + 1)
    } else {
        i
    }
}

/// The names are in order, none twice.
pub open spec fn names_in_order(names: Seq<Seq<char>>) -> bool {
    forall|i: int, j: int|
        0 <= i < j < names.len() ==> text_less(#[trigger] names[i], #[trigger] names[j])
}

/// `names` with `name` in its place.
pub open spec fn with_name(names: Seq<Seq<char>>, name: Seq<char>) -> Seq<Seq<char>> {
    if names.contains(name) {
        names
    } else {
        names.insert(name_rank(names, name, 0), name)
    }
}

pub proof fn lemma_name_rank(names: Seq<Seq<char>>, name: Seq<char>, i: int)
    requires
        0 <= i <= names.len(),
    ensures
        i <= name_rank(names, name, i) <= names.len(),
        forall|k: int|
            i <= k < name_rank(names, name, i) ==> text_less(#[trigger] names[k], name),
        name_rank(names, name, i) < names.len() ==> !text_less(
            names[name_rank(names, name, i)],
            name,
        ),
    decreases names.len() - i,
{
    if i < names.len() && text_less(names[i], name) {
        lemma_name_rank(names, name, i + 1);
    }
}

/// Adding a name keeps the order and adds that name only.
pub proof fn lemma_with_name(names: Seq<Seq<char>>, name: Seq<char>)
    requires
        names_in_order(names),
    ensures
        names_in_order(with_name(names, name)),
        forall|x: Seq<char>| #[trigger]
            with_name(names, name).contains(x) == (names.contains(x) || x == name),
        names.contains(name) == (name_rank(names, name, 0) < names.len() && names[name_rank(
            names,
            name,
            0,
        )] == name),
{
    let i = name_rank(names, name, 0);
    lemma_name_rank(names, name, 0);
    if names.contains(name) {
        let k = choose|k: int| 0 <= k < names.len() && names[k] == name;
        lemma_text_less_irreflexive(name);
        if k < i {
            assert(text_less(names[k], name));
        }
        if i < k {
            assert(text_less(names[i], names[k]));
        }
    } else {
        let now = names.insert(i, name);
        assert forall|a: int, b: int| 0 <= a < b < now.len() implies text_less(
            #[trigger] now[a],
            #[trigger] now[b],
        ) by {
            let u = if a < i {
                a
            } else {
                a - 1
            };
            let v = if b < i {
                b
            } else {
                b - 1
            };
            if a != i && b != i {
                assert(text_less(names[u], names[v]));
            } else if b == i {
                assert(text_less(names[a], name));
            } else {
                assert(names[i] != name);
                lemma_text_less_total(names[i], name);
                if v > i {
                    assert(text_less(names[i], names[v]));
                    lemma_text_less_transitive(name, names[i], names[v]);
                }
            }
        }
        assert forall|x: Seq<char>| #[trigger] now.contains(x) == (names.contains(x) || x
            == name) by {
            assert(now[i] == name);
            if names.contains(x) {
                let k = choose|k: int| 0 <= k < names.len() && names[k] == x;
                let j = if k < i {
                    k
                } else {
                    k + 1
                };
                assert(now[j] == x);
            }
            if now.contains(x) && x != name {
                let j = choose|j: int| 0 <= j < now.len() && now[j] == x;
                let k = if j < i {
                    j
                } else {
                    j - 1
                };
                assert(names[k] == x);
            }
        }
    }
}

/// A set of names, kept in order.
#[derive(Clone, Debug)]
pub struct NameSet {
    names: Vec<String>,
}

impl View for NameSet {
    type V = Seq<Seq<char>>;

    closed spec fn view(&self) -> Seq<Seq<char>> {
        text_views(self.names@)
    }
}

impl NameSet {
    /// The empty set.
    pub fn new() -> (r: NameSet)
        ensures
            r@.len() == 0,
    {
        NameSet { names: Vec::new() }
    }

    fn rank(&self, name: &str) -> (r: usize)
        ensures
            r == name_rank(self@, name@, 0),
            r <= self.names@.len(),
    {
        let mut i: usize = 0;
        while i < self.names.len() && text_is_less(self.names[i].as_str(), name)
            invariant
                i <= self.names@.len(),
                name_rank(self@, name@, 0) == name_rank(self@, name@, i as int),
            decreases self.names@.len() - i,
        {
            assert(self@[i as int] == self.names@[i as int]@);
            i = i + 1;
        }
        assert(i < self.names@.len() ==> self@[i as int] == self.names@[i as int]@);
        i
    }

    pub fn contains(&self, name: &str) -> (r: bool)
        requires
            names_in_order(self@),
        ensures
            r == self@.contains(name@),
    {
        let i = self.rank(name);
        proof {
            lemma_with_name(self@, name@);
        }
        if i < self.names.len() {
            assert(self@[i as int] == self.names@[i as int]@);
            same_text(self.names[i].as_str(), name)
        } else {
            false
        }
    }

    /// Adds a name; tells whether it is new.
    pub fn insert(&mut self, name: String) -> (r: bool)
        requires
            names_in_order(old(self)@),
        ensures
            names_in_order(final(self)@),
            final(self)@ == with_name(old(self)@, name@),
            r == !old(self)@.contains(name@),
    {
        proof {
            lemma_with_name(self@, name@);
        }
        if self.contains(name.as_str()) {
            return false;
        }
        let ghost was = self@;
        let ghost x = name@;
        let i = self.rank(name.as_str());
        self.names.insert(i, name);
        assert(self@ =~= was.insert(i as int, x));
        true
    }

    /// The names, in order.
    pub fn into_names(self) -> (r: Vec<String>)
        ensures
            text_views(r@) == self@,
    {
        self.names
    }

    pub fn duplicate(&self) -> (r: NameSet)
        ensures
            r@ == self@,
    {
        NameSet { names: crate::signals::copy_texts(&self.names) }
    }
}

/// Names with arrows between them.
pub open spec fn arrows(names: Seq<Seq<char>>) -> Seq<char>
    decreases names.len(),
{
    if names.len() == 0 {
        Seq::empty()
    } else if names.len() == 1 {
        names[0]
    } else {
        arrows(names.drop_last()) + " -> "@ + names.last()
    }
}

/// Where `name` first stands in `path`, from `i` on.
pub open spec fn first_place(path: Seq<Seq<char>>, name: Seq<char>, i: int) -> int
    decreases path.len() - i,
{
    if 0 <= i < path.len() && path[i] != name {
        first_place(path, name, i + 1)
    } else {
        i
    }
}

/// The loop that `name` closes in `path`.
pub open spec fn loop_names(path: Seq<Seq<char>>, name: Seq<char>) -> Seq<Seq<char>> {
    path.subrange(first_place(path, name, 0), path.len() as int).push(name)
}

/// How many profiles are not on the path.
pub open spec fn off_path(profiles: Seq<ProfileView>, path: Seq<Seq<char>>) -> nat
    decreases profiles.len(),
{
    if profiles.len() == 0 {
        0
    } else {
        off_path(profiles.drop_last(), path) + if path.contains(profiles.last().name) {
            0nat
        } else {
            1nat
        }
    }
}

/// What one more name on the path leaves off it.
pub proof fn lemma_off_path(profiles: Seq<ProfileView>, path: Seq<Seq<char>>, name: Seq<char>)
    ensures
        off_path(profiles, path.push(name)) <= off_path(profiles, path),
        !path.contains(name) && (exists|k: int|
            0 <= k < profiles.len() && (#[trigger] profiles[k]).name == name) ==> off_path(
            profiles,
            path.push(name),
        ) < off_path(profiles, path),
    decreases profiles.len(),
{
    if profiles.len() > 0 {
        let rest = profiles.drop_last();
        lemma_off_path(rest, path, name);
        let last = profiles.last().name;
        assert(path.push(name).contains(last) == (path.contains(last) || last == name)) by {
            if path.contains(last) {
                let k = choose|k: int| 0 <= k < path.len() && path[k] == last;
                assert(path.push(name)[k] == last);
            }
            assert(path.push(name)[path.len() as int] == name);
            if path.push(name).contains(last) && last != name {
                let k = choose|k: int|
                    0 <= k < path.push(name).len() && path.push(name)[k] == last;
                assert(path[k] == last);
            }
        }
        if exists|k: int| 0 <= k < profiles.len() && (#[trigger] profiles[k]).name == name {
            let k = choose|k: int| 0 <= k < profiles.len() && (#[trigger] profiles[k]).name == name;
            if k < rest.len() {
                assert(rest[k].name == name);
            }
        }
    }
}

/// What a profile brings: its rules, and the set of profiles that are loaded
/// then.
pub struct Loaded {
    pub rules: Seq<RuleView>,
    pub loaded: Seq<Seq<char>>,
}

impl Loaded {
    pub open spec fn after(self, first: Seq<RuleView>) -> Loaded {
        Loaded { rules: first + self.rules, loaded: self.loaded }
    }
}

pub proof fn lemma_lookup_name(profiles: Seq<ProfileView>, name: Seq<char>)
    ensures
        match lookup(profiles, name) {
            Some(p) => p.name == name && exists|k: int|
                0 <= k < profiles.len() && (#[trigger] profiles[k]).name == name,
            None => true,
        },
{
    if let Some(i) = place(profiles, name) {
        assert(profiles[i].name == name);
    }
}

/// Loads the profile `name`, on whose behalf the profiles of `path` are being
/// loaded: its own rules come first, then those of its parents, each profile
/// once.
pub open spec fn load(
    profiles: Seq<ProfileView>,
    name: Seq<char>,
    loaded: Seq<Seq<char>>,
    path: Seq<Seq<char>>,
) -> Result<Loaded, ConfigIssue>
    decreases off_path(profiles, path), 0nat,
{
    if loaded.contains(name) {
        Ok(Loaded { rules: Seq::empty(), loaded })
    } else if path.contains(name) {
        Err(ConfigIssue::CyclicProfileInheritance(arrows(loop_names(path, name))))
    } else {
        match lookup(profiles, name) {
            Some(p) => {
                proof {
                    lemma_off_path(profiles, path, name);
                    lemma_lookup_name(profiles, name);
                }
                match load_parents(profiles, p.inherits, 0, loaded, path.push(name)) {
                    Ok(l) => Ok(
                        Loaded { rules: p.rules + l.rules, loaded: with_name(l.loaded, name) },
                    ),
                    Err(issue) => Err(issue),
                }
            },
            None => Err(ConfigIssue::UnknownProfile(name)),
        }
    }
}

/// Loads the parents from number `i` on, one after another.
pub open spec fn load_parents(
    profiles: Seq<ProfileView>,
    parents: Seq<Seq<char>>,
    i: int,
    loaded: Seq<Seq<char>>,
    path: Seq<Seq<char>>,
) -> Result<Loaded, ConfigIssue>
    decreases off_path(profiles, path), 1 + parents.len() - i,
{
    if !(0 <= i < parents.len()) {
        Ok(Loaded { rules: Seq::empty(), loaded })
    } else {
        match load(profiles, parents[i], loaded, path) {
            Ok(l) => match load_parents(profiles, parents, i + 1, l.loaded, path) {
                Ok(m) => Ok(m.after(l.rules)),
                Err(issue) => Err(issue),
            },
            Err(issue) => Err(issue),
        }
    }
}

/// A profile that is being loaded: its name and its next parent.
pub struct Frame {
    pub name: Seq<char>,
    pub next: int,
}

pub open spec fn frame_names(frames: Seq<Frame>) -> Seq<Seq<char>> {
    frames.map_values(|f: Frame| f.name)
}

pub open spec fn parents_of(profiles: Seq<ProfileView>, name: Seq<char>) -> Seq<Seq<char>> {
    match lookup(profiles, name) {
        Some(p) => p.inherits,
        None => Seq::empty(),
    }
}

/// What is left to do for the profiles that are being loaded, innermost last.
spec fn unwind(profiles: Seq<ProfileView>, frames: Seq<Frame>, loaded: Seq<Seq<char>>) -> Result<
    Loaded,
    ConfigIssue,
>
    decreases frames.len(),
{
    if frames.len() == 0 {
        Ok(Loaded { rules: Seq::empty(), loaded })
    } else {
        let f = frames.last();
        match load_parents(
            profiles,
            parents_of(profiles, f.name),
            f.next,
            loaded,
            frame_names(frames),
        ) {
            Ok(l) => match unwind(profiles, frames.drop_last(), with_name(l.loaded, f.name)) {
                Ok(m) => Ok(m.after(l.rules)),
                Err(issue) => Err(issue),
            },
            Err(issue) => Err(issue),
        }
    }
}

/// How many profiles are neither loaded nor on the path.
spec fn untouched(
    profiles: Seq<ProfileView>,
    loaded: Seq<Seq<char>>,
    path: Seq<Seq<char>>,
) -> nat
    decreases profiles.len(),
{
    if profiles.len() == 0 {
        0
    } else {
        untouched(profiles.drop_last(), loaded, path) + if loaded.contains(profiles.last().name)
            || path.contains(profiles.last().name) {
            0nat
        } else {
            1nat
        }
    }
}

/// `x` is loaded or on the path.
spec fn touched(loaded: Seq<Seq<char>>, path: Seq<Seq<char>>, x: Seq<char>) -> bool {
    loaded.contains(x) || path.contains(x)
}

proof fn lemma_untouched(
    profiles: Seq<ProfileView>,
    loaded: Seq<Seq<char>>,
    path: Seq<Seq<char>>,
    loaded2: Seq<Seq<char>>,
    path2: Seq<Seq<char>>,
    name: Seq<char>,
)
    requires
        forall|x: Seq<char>| #[trigger] touched(loaded, path, x) ==> touched(loaded2, path2, x),
    ensures
        untouched(profiles, loaded2, path2) <= untouched(profiles, loaded, path),
        !loaded.contains(name) && !path.contains(name) && (loaded2.contains(name)
            || path2.contains(name)) && (exists|k: int|
            0 <= k < profiles.len() && (#[trigger] profiles[k]).name == name) ==> untouched(
            profiles,
            loaded2,
            path2,
        ) < untouched(profiles, loaded, path),
    decreases profiles.len(),
{
    if profiles.len() > 0 {
        let rest = profiles.drop_last();
        lemma_untouched(rest, loaded, path, loaded2, path2, name);
        let last = profiles.last().name;
        assert(touched(loaded, path, last) ==> touched(loaded2, path2, last));
        if exists|k: int| 0 <= k < profiles.len() && (#[trigger] profiles[k]).name == name {
            let k = choose|k: int| 0 <= k < profiles.len() && (#[trigger] profiles[k]).name == name;
            if k < rest.len() {
                assert(rest[k].name == name);
            }
        }
    }
}

proof fn lemma_push_contains(path: Seq<Seq<char>>, name: Seq<char>)
    ensures
        forall|x: Seq<char>| #[trigger]
            path.push(name).contains(x) == (path.contains(x) || x == name),
{
    let now = path.push(name);
    assert(now[path.len() as int] == name);
    assert forall|x: Seq<char>| #[trigger] now.contains(x) == (path.contains(x) || x == name) by {
        if path.contains(x) {
            let k = choose|k: int| 0 <= k < path.len() && path[k] == x;
            assert(now[k] == x);
        }
        if now.contains(x) && x != name {
            let k = choose|k: int| 0 <= k < now.len() && now[k] == x;
            assert(path[k] == x);
        }
    }
}

fn join_arrows(names: &Vec<String>) -> (r: String)
    ensures
        r@ == arrows(text_views(names@)),
{
    let ghost all = text_views(names@);
    if names.len() == 0 {
        let none = String::new();
        assert(none@ =~= Seq::<char>::empty());
        return none;
    }
    let mut out = copy_text(names[0].as_str());
    let mut i: usize = 1;
    assert(all.take(1) =~= seq![all[0]]);
    while i < names.len()
        invariant
            1 <= i <= names@.len(),
            all == text_views(names@),
            out@ == arrows(all.take(i as int)),
        decreases names@.len() - i,
    {
        assert(all.take(i + 1).drop_last() =~= all.take(i as int));
        assert(all[i as int] == names@[i as int]@);
        out = concat3(out.as_str(), " -> ", names[i].as_str());
        i = i + 1;
    }
    assert(all.take(i as int) =~= all);
    out
}

spec fn frames_of(stack: Seq<(String, usize)>) -> Seq<Frame> {
    stack.map_values(|f: (String, usize)| Frame { name: f.0@, next: f.1 as int })
}

spec fn path_of(stack: Seq<(String, usize)>) -> Seq<Seq<char>> {
    stack.map_values(|f: (String, usize)| f.0@)
}

fn path_position(stack: &Vec<(String, usize)>, name: &str) -> (r: Option<usize>)
    ensures
        match r {
            Some(i) => i < stack@.len() && i == first_place(path_of(stack@), name@, 0) && path_of(
                stack@,
            ).contains(name@),
            None => !path_of(stack@).contains(name@),
        },
{
    let ghost path = path_of(stack@);
    let mut i: usize = 0;
    while i < stack.len()
        invariant
            i <= stack@.len(),
            path == path_of(stack@),
            first_place(path, name@, 0) == first_place(path, name@, i as int),
            forall|k: int| 0 <= k < i ==> #[trigger] path[k] != name@,
        decreases stack@.len() - i,
    {
        assert(path[i as int] == stack@[i as int].0@);
        if same_text(stack[i].0.as_str(), name) {
            assert(path[i as int] == name@);
            return Some(i);
        }
        i = i + 1;
    }
    None
}

fn loop_text(stack: &Vec<(String, usize)>, from: usize, name: &str) -> (r: String)
    requires
        from <= stack@.len(),
    ensures
        r@ == arrows(path_of(stack@).subrange(from as int, stack@.len() as int).push(name@)),
{
    let ghost path = path_of(stack@);
    let mut names: Vec<String> = Vec::new();
    let mut i: usize = from;
    assert(path.subrange(from as int, from as int) =~= Seq::<Seq<char>>::empty());
    assert(text_views(names@) =~= Seq::<Seq<char>>::empty());
    while i < stack.len()
        invariant
            from <= i <= stack@.len(),
            path == path_of(stack@),
            text_views(names@) == path.subrange(from as int, i as int),
        decreases stack@.len() - i,
    {
        let ghost before = text_views(names@);
        names.push(copy_text(stack[i].0.as_str()));
        assert(text_views(names@) =~= before.push(path[i as int]));
        assert(path.subrange(from as int, i + 1) =~= before.push(path[i as int]));
        i = i + 1;
    }
    let ghost before = text_views(names@);
    names.push(copy_text(name));
    assert(text_views(names@) =~= before.push(name@));
    join_arrows(&names)
}

fn cut_rules(rules: &mut Vec<RuleSpec>, len: usize)
    requires
        len <= old(rules)@.len(),
    ensures
        rule_views(final(rules)@) == rule_views(old(rules)@).take(len as int),
{
    let ghost was = rule_views(rules@);
    rules.truncate(len);
    assert(rule_views(rules@) =~= was.take(len as int));
}

impl ProfileStore {
    /// Appends the rules of a profile and of those it inherits, and notes them
    /// as loaded. Where that fails nothing is changed.
    pub fn append_profile_rules(
        &self,
        profile_name: &str,
        loaded: &mut NameSet,
        rules: &mut Vec<RuleSpec>,
    ) -> (r: Result<(), ConfigError>)
        requires
            names_in_order(old(loaded)@),
        ensures
            names_in_order(final(loaded)@),
            match load(self@, profile_name@, old(loaded)@, Seq::empty()) {
                Ok(l) => r is Ok && final(loaded)@ == l.loaded && rule_views(final(rules)@)
                    == rule_views(old(rules)@) + l.rules,
                Err(issue) => final(loaded)@ == old(loaded)@ && rule_views(final(rules)@)
                    == rule_views(old(rules)@) && match r {
                    Err(e) => e@ == issue,
                    Ok(_) => false,
                },
            },
    {
        let ghost profiles = self@;
        let ghost first_rules = rule_views(rules@);
        let ghost first_loaded = loaded@;
        let ghost goal = load(profiles, profile_name@, first_loaded, Seq::empty());
        if loaded.contains(profile_name) {
            assert(first_rules + Seq::<RuleView>::empty() =~= first_rules);
            return Ok(());
        }
        let rule_start = rules.len();
        let loaded_before = loaded.duplicate();
        let profile = match self.profile(profile_name) {
            Some(p) => p,
            None => return Err(ConfigError::UnknownProfile(copy_text(profile_name))),
        };
        assert(first_rules.len() == rules@.len());
        append_rules(rules, &profile.rules);
        assert(rule_views(rules@).len() == rules@.len());
        assert(rule_views(rules@).take(rule_start as int) =~= first_rules);
        let mut stack: Vec<(String, usize)> = Vec::new();
        stack.push((copy_text(profile_name), 0));
        let ghost none = Seq::<Seq<char>>::empty();
        proof {
            lemma_lookup_name(profiles, profile_name@);
            assert(frames_of(stack@) =~= seq![Frame { name: profile_name@, next: 0 }]);
            assert(path_of(stack@) =~= none.push(profile_name@));
            assert(frame_names(frames_of(stack@)) =~= none.push(profile_name@));
            assert(frames_of(stack@).drop_last() =~= Seq::<Frame>::empty());
            lemma_goal_start(profiles, profile_name@, first_loaded, first_rules);
        }
        loop
            invariant
                profiles == self@,
                names_in_order(loaded@),
                rule_start <= rules@.len(),
                loaded_before@ == first_loaded,
                names_in_order(first_loaded),
                first_loaded == old(loaded)@,
                first_rules == rule_views(old(rules)@),
                rule_start == first_rules.len(),
                rule_views(rules@).take(rule_start as int) == first_rules,
                forall|k: int|
                    0 <= k < stack@.len() ==> lookup(profiles, (#[trigger] stack@[k]).0@) is Some,
                goal == load(profiles, profile_name@, first_loaded, Seq::empty()),
                resumed(profiles, frames_of(stack@), loaded@, rule_views(rules@), first_rules)
                    == goal,
            decreases
                    untouched(profiles, loaded@, path_of(stack@)),
                    stack@.len(),
                    unread(profiles, frames_of(stack@)),
        {
            if stack.len() == 0 {
                proof {
                    let all = rule_views(rules@);
                    assert(all =~= first_rules + all.skip(first_rules.len() as int));
                    assert(all.skip(first_rules.len() as int) + Seq::<RuleView>::empty()
                        =~= all.skip(first_rules.len() as int));
                }
                return Ok(());
            }
            let top = stack.len() - 1;
            let ghost frames = frames_of(stack@);
            let ghost path = path_of(stack@);
            let ghost was = loaded@;
            let current_name = copy_text(stack[top].0.as_str());
            let next_parent = stack[top].1;
            proof {
                assert(frames.last() == (Frame {
                    name: current_name@,
                    next: next_parent as int,
                }));
                assert(frame_names(frames) =~= path);
                assert(path.last() == current_name@);
                assert(path.contains(current_name@)) by {
                    assert(path[top as int] == current_name@);
                }
                assert(lookup(profiles, stack@[top as int].0@) is Some);
            }
            let current = match self.profile(current_name.as_str()) {
                Some(p) => p,
                None => return Ok(()),
            };
            let ghost parents = current@.inherits;
            assert(parents.len() == current.inherits@.len());
            if next_parent >= current.inherits.len() {
                let _ = stack.pop();
                let ghost name = current_name@;
                let _ = loaded.insert(current_name);
                proof {
                    assert(frames_of(stack@) =~= frames.drop_last());
                    assert(path_of(stack@) =~= path.drop_last());
                    lemma_with_name(was, name);
                    lemma_drop_contains(path);
                    assert forall|x: Seq<char>| #[trigger] touched(was, path, x) implies touched(
                        loaded@,
                        path_of(stack@),
                        x,
                    ) by {
                        assert(path.contains(x) ==> path.drop_last().contains(x) || x == name);
                        assert(with_name(was, name).contains(x) == (was.contains(x) || x == name));
                    }
                    lemma_untouched(profiles, was, path, loaded@, path_of(stack@), name);
                    lemma_resume_pop(profiles, frames, was, rule_views(rules@), first_rules);
                }
                continue;
            }
            stack.set(top, (copy_text(current_name.as_str()), next_parent + 1));
            let ghost advanced = frames_of(stack@);
            proof {
                assert(advanced =~= frames.update(
                    top as int,
                    Frame { name: current_name@, next: next_parent + 1 },
                ));
                assert(path_of(stack@) =~= path);
                assert(frame_names(advanced) =~= path);
                assert(advanced.drop_last() =~= frames.drop_last());
                assert(unread(profiles, advanced) < unread(profiles, frames));
                lemma_resume_step(
                    profiles,
                    frames,
                    advanced,
                    was,
                    rule_views(rules@),
                    first_rules,
                );
                assert(parents[next_parent as int] == current.inherits@[next_parent as int]@);
            }
            let parent_name = copy_text(current.inherits[next_parent].as_str());
            let ghost parent = parent_name@;
            if loaded.contains(parent_name.as_str()) {
                proof {
                    lemma_resume_skip(
                        profiles,
                        frames,
                        advanced,
                        was,
                        rule_views(rules@),
                        first_rules,
                    );
                }
                continue;
            }
            if let Some(from) = path_position(&stack, parent_name.as_str()) {
                let names = loop_text(&stack, from, parent_name.as_str());
                cut_rules(rules, rule_start);
                *loaded = loaded_before;
                return Err(ConfigError::CyclicProfileInheritance(names));
            }
            let found = match self.profile(parent_name.as_str()) {
                Some(p) => p,
                None => {
                    cut_rules(rules, rule_start);
                    *loaded = loaded_before;
                    return Err(ConfigError::UnknownProfile(parent_name));
                },
            };
            let ghost all = rule_views(rules@);
            assert(all.len() == rules@.len());
            append_rules(rules, &found.rules);
            assert(rule_views(rules@).len() == rules@.len());
            stack.push((parent_name, 0));
            proof {
                assert(rule_views(rules@).take(rule_start as int) =~= all.take(rule_start as int));
                assert(frames_of(stack@) =~= advanced.push(Frame { name: parent, next: 0 }));
                assert(path_of(stack@) =~= path.push(parent));
                lemma_push_contains(path, parent);
                lemma_lookup_name(profiles, parent);
                assert forall|x: Seq<char>| #[trigger] touched(was, path, x) implies touched(
                    loaded@,
                    path_of(stack@),
                    x,
                ) by {
                    assert(path.push(parent).contains(x) == (path.contains(x) || x == parent));
                }
                assert(path.push(parent).contains(parent));
                lemma_untouched(profiles, was, path, loaded@, path_of(stack@), parent);
                lemma_resume_push(profiles, frames, advanced, was, all, first_rules);
            }
        }
    }
}

/// How many parents the innermost profile has left.
spec fn unread(profiles: Seq<ProfileView>, frames: Seq<Frame>) -> int {
    if frames.len() == 0 {
        0
    } else {
        let left = parents_of(profiles, frames.last().name).len() - frames.last().next;
        if left < 0 {
            0
        } else {
            left
        }
    }
}

/// The result, where `all` are the rules so far and the first of them were
/// there before.
spec fn resumed(
    profiles: Seq<ProfileView>,
    frames: Seq<Frame>,
    loaded: Seq<Seq<char>>,
    all: Seq<RuleView>,
    first: Seq<RuleView>,
) -> Result<Loaded, ConfigIssue> {
    match unwind(profiles, frames, loaded) {
        Ok(l) => Ok(l.after(all.skip(first.len() as int))),
        Err(issue) => Err(issue),
    }
}

proof fn lemma_drop_contains(path: Seq<Seq<char>>)
    requires
        path.len() > 0,
    ensures
        forall|x: Seq<char>|
            path.contains(x) ==> #[trigger] path.drop_last().contains(x) || x == path.last(),
{
    assert forall|x: Seq<char>| path.contains(x) implies #[trigger] path.drop_last().contains(x)
        || x == path.last() by {
        let k = choose|k: int| 0 <= k < path.len() && path[k] == x;
        if k < path.len() - 1 {
            assert(path.drop_last()[k] == x);
        }
    }
}

proof fn lemma_goal_start(
    profiles: Seq<ProfileView>,
    name: Seq<char>,
    loaded: Seq<Seq<char>>,
    first: Seq<RuleView>,
)
    requires
        !loaded.contains(name),
        lookup(profiles, name) is Some,
    ensures
        resumed(
            profiles,
            seq![Frame { name, next: 0 }],
            loaded,
            first + lookup(profiles, name)->Some_0.rules,
            first,
        ) == load(profiles, name, loaded, Seq::empty()),
{
    let p = lookup(profiles, name)->Some_0;
    let frames = seq![Frame { name, next: 0 }];
    let none = Seq::<Seq<char>>::empty();
    assert(frame_names(frames) =~= none.push(name));
    assert(frames.drop_last() =~= Seq::<Frame>::empty());
    let all = first + p.rules;
    assert(all.skip(first.len() as int) =~= p.rules);
    reveal_with_fuel(unwind, 2);
    if let Ok(l) = load_parents(profiles, p.inherits, 0, loaded, none.push(name)) {
        assert(p.rules + (l.rules + Seq::<RuleView>::empty()) =~= p.rules + l.rules);
    }
}

proof fn lemma_resume_pop(
    profiles: Seq<ProfileView>,
    frames: Seq<Frame>,
    loaded: Seq<Seq<char>>,
    all: Seq<RuleView>,
    first: Seq<RuleView>,
)
    requires
        frames.len() > 0,
        frames.last().next >= parents_of(profiles, frames.last().name).len(),
    ensures
        resumed(
            profiles,
            frames.drop_last(),
            with_name(loaded, frames.last().name),
            all,
            first,
        ) == resumed(profiles, frames, loaded, all, first),
{
    if let Ok(m) = unwind(
        profiles,
        frames.drop_last(),
        with_name(loaded, frames.last().name),
    ) {
        assert(Seq::<RuleView>::empty() + m.rules =~= m.rules);
    }
}

/// What is left is what is left behind the next parent.
proof fn lemma_resume_step(
    profiles: Seq<ProfileView>,
    frames: Seq<Frame>,
    advanced: Seq<Frame>,
    loaded: Seq<Seq<char>>,
    all: Seq<RuleView>,
    first: Seq<RuleView>,
)
    requires
        frames.len() > 0,
        0 <= frames.last().next < parents_of(profiles, frames.last().name).len(),
        advanced == frames.update(
            frames.len() - 1,
            Frame { name: frames.last().name, next: frames.last().next + 1 },
        ),
    ensures
        match load(
            profiles,
            parents_of(profiles, frames.last().name)[frames.last().next],
            loaded,
            frame_names(frames),
        ) {
            Ok(l) => resumed(profiles, frames, loaded, all, first) == match unwind(
                profiles,
                advanced,
                l.loaded,
            ) {
                Ok(m) => Ok::<Loaded, ConfigIssue>(
                    m.after(l.rules).after(all.skip(first.len() as int)),
                ),
                Err(issue) => Err::<Loaded, ConfigIssue>(issue),
            },
            Err(issue) => resumed(profiles, frames, loaded, all, first) == Err::<
                Loaded,
                ConfigIssue,
            >(issue),
        },
{
    let f = frames.last();
    let parents = parents_of(profiles, f.name);
    let path = frame_names(frames);
    assert(frame_names(advanced) =~= path);
    assert(advanced.drop_last() =~= frames.drop_last());
    assert(advanced.last() == (Frame { name: f.name, next: f.next + 1 }));
    if let Ok(l) = load(profiles, parents[f.next], loaded, path) {
        if let Ok(m) = load_parents(profiles, parents, f.next + 1, l.loaded, path) {
            if let Ok(n) = unwind(profiles, frames.drop_last(), with_name(m.loaded, f.name)) {
                assert((l.rules + m.rules) + n.rules =~= l.rules + (m.rules + n.rules));
            }
        }
    }
}

proof fn lemma_resume_skip(
    profiles: Seq<ProfileView>,
    frames: Seq<Frame>,
    advanced: Seq<Frame>,
    loaded: Seq<Seq<char>>,
    all: Seq<RuleView>,
    first: Seq<RuleView>,
)
    requires
        frames.len() > 0,
        0 <= frames.last().next < parents_of(profiles, frames.last().name).len(),
        loaded.contains(parents_of(profiles, frames.last().name)[frames.last().next]),
        advanced == frames.update(
            frames.len() - 1,
            Frame { name: frames.last().name, next: frames.last().next + 1 },
        ),
    ensures
        resumed(profiles, frames, loaded, all, first) == resumed(
            profiles,
            advanced,
            loaded,
            all,
            first,
        ),
{
    lemma_resume_step(profiles, frames, advanced, loaded, all, first);
    if let Ok(m) = unwind(profiles, advanced, loaded) {
        assert(Seq::<RuleView>::empty() + m.rules =~= m.rules);
    }
}

proof fn lemma_resume_push(
    profiles: Seq<ProfileView>,
    frames: Seq<Frame>,
    advanced: Seq<Frame>,
    loaded: Seq<Seq<char>>,
    all: Seq<RuleView>,
    first: Seq<RuleView>,
)
    requires
        frames.len() > 0,
        0 <= frames.last().next < parents_of(profiles, frames.last().name).len(),
        advanced == frames.update(
            frames.len() - 1,
            Frame { name: frames.last().name, next: frames.last().next + 1 },
        ),
        first.len() <= all.len(),
        ({
            let parent = parents_of(profiles, frames.last().name)[frames.last().next];
            !loaded.contains(parent) && !frame_names(frames).contains(parent) && lookup(
                profiles,
                parent,
            ) is Some
        }),
    ensures
        ({
            let parent = parents_of(profiles, frames.last().name)[frames.last().next];
            resumed(profiles, frames, loaded, all, first) == resumed(
                profiles,
                advanced.push(Frame { name: parent, next: 0 }),
                loaded,
                all + lookup(profiles, parent)->Some_0.rules,
                first,
            )
        }),
{
    let parent = parents_of(profiles, frames.last().name)[frames.last().next];
    let p = lookup(profiles, parent)->Some_0;
    let path = frame_names(frames);
    let deeper = advanced.push(Frame { name: parent, next: 0 });
    lemma_resume_step(profiles, frames, advanced, loaded, all, first);
    assert(frame_names(deeper) =~= path.push(parent));
    assert(deeper.drop_last() =~= advanced);
    let n = first.len() as int;
    assert((all + p.rules).skip(n) =~= all.skip(n) + p.rules);
    if let Ok(l) = load_parents(profiles, p.inherits, 0, loaded, path.push(parent)) {
        if let Ok(m) = unwind(profiles, advanced, with_name(l.loaded, parent)) {
            assert(all.skip(n) + ((p.rules + l.rules) + m.rules) =~= (all.skip(n) + p.rules) + (
            l.rules + m.rules));
        }
    }
}

/// Whether a profile of `pending`, last first, descends from `ancestor`. The
/// profiles of `seen` are not looked at again.
pub open spec fn search(
    profiles: Seq<ProfileView>,
    pending: Seq<Seq<char>>,
    seen: Seq<Seq<char>>,
    ancestor: Seq<char>,
) -> Result<bool, ConfigIssue>
    decreases off_path(profiles, seen), pending.len(),
{
    if pending.len() == 0 {
        Ok(false)
    } else {
        let name = pending.last();
        if seen.contains(name) {
            search(profiles, pending.drop_last(), seen, ancestor)
        } else {
            match lookup(profiles, name) {
                Some(p) => if p.inherits.contains(ancestor) {
                    Ok(true)
                } else {
                    proof {
                        lemma_off_path(profiles, seen, name);
                        lemma_lookup_name(profiles, name);
                    }
                    search(
                        profiles,
                        pending.drop_last() + p.inherits.reverse(),
                        seen.push(name),
                        ancestor,
                    )
                },
                None => Err(ConfigIssue::UnknownProfile(name)),
            }
        }
    }
}

/// Whether the profile `name` descends from `ancestor`.
pub open spec fn inherits_from(
    profiles: Seq<ProfileView>,
    name: Seq<char>,
    ancestor: Seq<char>,
) -> Result<bool, ConfigIssue> {
    search(profiles, seq![name], Seq::empty(), ancestor)
}

/// `ancestor` is reached from `name` in at most `n` steps from a profile to
/// a parent.
pub open spec fn reaches(
    profiles: Seq<ProfileView>,
    name: Seq<char>,
    ancestor: Seq<char>,
    n: nat,
) -> bool
    decreases n,
{
    n > 0 && exists|k: int|
        0 <= k < parents_of(profiles, name).len() && ((#[trigger] parents_of(profiles, name)[k])
            == ancestor || reaches(
            profiles,
            parents_of(profiles, name)[k],
            ancestor,
            (n - 1) as nat,
        ))
}

proof fn lemma_search_finds(
    profiles: Seq<ProfileView>,
    pending: Seq<Seq<char>>,
    seen: Seq<Seq<char>>,
    ancestor: Seq<char>,
)
    requires
        search(profiles, pending, seen, ancestor) == Ok::<bool, ConfigIssue>(true),
    ensures
        exists|i: int, n: nat|
            0 <= i < pending.len() && #[trigger] reaches(profiles, pending[i], ancestor, n),
    decreases off_path(profiles, seen), pending.len(),
{
    let name = pending.last();
    let rest = pending.drop_last();
    if seen.contains(name) {
        lemma_search_finds(profiles, rest, seen, ancestor);
        let (i, n) = choose|i: int, n: nat|
            0 <= i < rest.len() && #[trigger] reaches(profiles, rest[i], ancestor, n);
        assert(reaches(profiles, pending[i], ancestor, n));
    } else {
        let p = lookup(profiles, name)->Some_0;
        let last = pending.len() - 1;
        if p.inherits.contains(ancestor) {
            let k = choose|k: int| 0 <= k < p.inherits.len() && p.inherits[k] == ancestor;
            let parents = parents_of(profiles, name);
            assert(parents[k] == ancestor);
            assert(reaches(profiles, parents[k], ancestor, 0) || parents[k] == ancestor);
            assert(reaches(profiles, pending[last], ancestor, 1));
        } else {
            lemma_off_path(profiles, seen, name);
            lemma_lookup_name(profiles, name);
            let more = rest + p.inherits.reverse();
            lemma_search_finds(profiles, more, seen.push(name), ancestor);
            let (i, n) = choose|i: int, n: nat|
                0 <= i < more.len() && #[trigger] reaches(profiles, more[i], ancestor, n);
            if i < rest.len() {
                assert(reaches(profiles, pending[i], ancestor, n));
            } else {
                let k = p.inherits.len() - 1 - (i - rest.len());
                let parents = parents_of(profiles, name);
                assert(more[i] == parents[k]);
                assert(reaches(profiles, parents[k], ancestor, n));
                assert(((n + 1) - 1) as nat == n);
                assert(reaches(profiles, pending[last], ancestor, n + 1));
            }
        }
    }
}

/// The parents of `name` are seen or pending, and none is `ancestor`.
spec fn settled(
    profiles: Seq<ProfileView>,
    name: Seq<char>,
    pending: Seq<Seq<char>>,
    seen: Seq<Seq<char>>,
    ancestor: Seq<char>,
) -> bool {
    forall|k: int|
        0 <= k < parents_of(profiles, name).len() ==> (#[trigger] parents_of(profiles, name)[k])
            != ancestor && (seen.contains(parents_of(profiles, name)[k]) || pending.contains(
            parents_of(profiles, name)[k],
        ))
}

proof fn lemma_closed_reaches_nothing(
    profiles: Seq<ProfileView>,
    seen: Seq<Seq<char>>,
    ancestor: Seq<char>,
    name: Seq<char>,
    n: nat,
)
    requires
        seen.contains(name),
        forall|x: Seq<char>| #[trigger]
            seen.contains(x) ==> settled(profiles, x, Seq::empty(), seen, ancestor),
    ensures
        !reaches(profiles, name, ancestor, n),
    decreases n,
{
    if n > 0 && reaches(profiles, name, ancestor, n) {
        let parents = parents_of(profiles, name);
        let k = choose|k: int|
            0 <= k < parents.len() && ((#[trigger] parents[k]) == ancestor || reaches(
                profiles,
                parents[k],
                ancestor,
                (n - 1) as nat,
            ));
        assert(settled(profiles, name, Seq::empty(), seen, ancestor));
        assert(parents[k] != ancestor);
        lemma_closed_reaches_nothing(profiles, seen, ancestor, parents[k], (n - 1) as nat);
    }
}

proof fn lemma_search_misses(
    profiles: Seq<ProfileView>,
    pending: Seq<Seq<char>>,
    seen: Seq<Seq<char>>,
    ancestor: Seq<char>,
    name: Seq<char>,
    n: nat,
)
    requires
        search(profiles, pending, seen, ancestor) == Ok::<bool, ConfigIssue>(false),
        forall|x: Seq<char>| #[trigger]
            seen.contains(x) ==> settled(profiles, x, pending, seen, ancestor),
        pending.contains(name) || seen.contains(name),
    ensures
        !reaches(profiles, name, ancestor, n),
    decreases off_path(profiles, seen), pending.len(),
{
    if pending.len() == 0 {
        assert(pending =~= Seq::<Seq<char>>::empty());
        lemma_closed_reaches_nothing(profiles, seen, ancestor, name, n);
    } else {
        let top = pending.last();
        let rest = pending.drop_last();
        lemma_drop_contains(pending);
        if seen.contains(top) {
            assert forall|x: Seq<char>| #[trigger] seen.contains(x) implies settled(
                profiles,
                x,
                rest,
                seen,
                ancestor,
            ) by {
                assert(settled(profiles, x, pending, seen, ancestor));
                let parents = parents_of(profiles, x);
                assert forall|k: int| 0 <= k < parents.len() implies (#[trigger] parents[k])
                    != ancestor && (seen.contains(parents[k]) || rest.contains(parents[k])) by {
                    assert(pending.contains(parents[k]) ==> rest.contains(parents[k]) || parents[k]
                        == top);
                }
            }
            assert(pending.contains(name) ==> rest.contains(name) || name == top);
            lemma_search_misses(profiles, rest, seen, ancestor, name, n);
        } else {
            let p = lookup(profiles, top)->Some_0;
            let more = rest + p.inherits.reverse();
            let wider = seen.push(top);
            lemma_off_path(profiles, seen, top);
            lemma_lookup_name(profiles, top);
            lemma_push_contains(seen, top);
            assert forall|x: Seq<char>| rest.contains(x) implies #[trigger] more.contains(x) by {
                let k = choose|k: int| 0 <= k < rest.len() && rest[k] == x;
                assert(more[k] == x);
            }
            assert forall|x: Seq<char>| #[trigger] wider.contains(x) implies settled(
                profiles,
                x,
                more,
                wider,
                ancestor,
            ) by {
                let parents = parents_of(profiles, x);
                assert(seen.contains(x) ==> settled(profiles, x, pending, seen, ancestor));
                assert forall|k: int| 0 <= k < parents.len() implies (#[trigger] parents[k])
                    != ancestor && (wider.contains(parents[k]) || more.contains(parents[k])) by {
                    if x == top {
                        let j = rest.len() + (p.inherits.len() - 1 - k);
                        assert(more[j] == parents[k]);
                        if parents[k] == ancestor {
                            assert(p.inherits.contains(ancestor));
                        }
                    } else {
                        assert(seen.contains(x));
                        assert(pending.contains(parents[k]) ==> rest.contains(parents[k])
                            || parents[k] == top);
                        assert(wider.contains(parents[k]) == (seen.contains(parents[k])
                            || parents[k] == top));
                        assert(rest.contains(parents[k]) ==> more.contains(parents[k]));
                    }
                }
            }
            assert(pending.contains(name) ==> rest.contains(name) || name == top);
            assert(rest.contains(name) ==> more.contains(name));
            assert(wider.contains(name) == (seen.contains(name) || name == top));
            lemma_search_misses(profiles, more, wider, ancestor, name, n);
        }
    }
}

/// Where the search for an ancestor does not meet an unknown profile, it tells
/// exactly whether the ancestor is reached from parent to parent.
pub proof fn inheritance_search_is_exact(
    profiles: Seq<ProfileView>,
    name: Seq<char>,
    ancestor: Seq<char>,
)
    ensures
        match inherits_from(profiles, name, ancestor) {
            Ok(true) => exists|n: nat| #[trigger] reaches(profiles, name, ancestor, n),
            Ok(false) => forall|n: nat| !#[trigger] reaches(profiles, name, ancestor, n),
            Err(_) => true,
        },
{
    let start = seq![name];
    let none = Seq::<Seq<char>>::empty();
    assert(start[0] == name);
    match inherits_from(profiles, name, ancestor) {
        Ok(true) => {
            lemma_search_finds(profiles, start, none, ancestor);
            let (i, n) = choose|i: int, n: nat|
                0 <= i < start.len() && #[trigger] reaches(profiles, start[i], ancestor, n);
            assert(reaches(profiles, name, ancestor, n));
        },
        Ok(false) => {
            assert forall|n: nat| !#[trigger] reaches(profiles, name, ancestor, n) by {
                assert(start.contains(name));
                lemma_search_misses(profiles, start, none, ancestor, name, n);
            }
        },
        Err(_) => {},
    }
}

/// Whether another selected profile, from number `j` on, brings `candidate`.
pub open spec fn brought(
    profiles: Seq<ProfileView>,
    names: Seq<Seq<char>>,
    candidate: Seq<char>,
    j: int,
) -> Result<bool, ConfigIssue>
    decreases names.len() - j,
{
    if !(0 <= j < names.len()) {
        Ok(false)
    } else if names[j] == candidate {
        brought(profiles, names, candidate, j + 1)
    } else {
        match inherits_from(profiles, names[j], candidate) {
            Err(issue) => Err(issue),
            Ok(false) => brought(profiles, names, candidate, j + 1),
            Ok(true) => match inherits_from(profiles, candidate, names[j]) {
                Err(issue) => Err(issue),
                Ok(false) => Ok(true),
                Ok(true) => Err(
                    ConfigIssue::CyclicProfileInheritance(
                        arrows(seq![candidate, names[j], candidate]),
                    ),
                ),
            },
        }
    }
}

/// The selected profiles, from number `i` on, that no other brings.
pub open spec fn top_level(profiles: Seq<ProfileView>, names: Seq<Seq<char>>, i: int) -> Result<
    Seq<Seq<char>>,
    ConfigIssue,
>
    decreases names.len() - i,
{
    if !(0 <= i < names.len()) {
        Ok(Seq::empty())
    } else {
        match brought(profiles, names, names[i], 0) {
            Err(issue) => Err(issue),
            Ok(is_brought) => match top_level(profiles, names, i + 1) {
                Err(issue) => Err(issue),
                Ok(rest) => if is_brought {
                    Ok(rest)
                } else {
                    Ok(seq![names[i]] + rest)
                },
            },
        }
    }
}

/// The rules of the selected profiles, and all profiles that are enabled then.
pub open spec fn selected(profiles: Seq<ProfileView>, names: Seq<Seq<char>>) -> Result<
    Loaded,
    ConfigIssue,
> {
    match top_level(profiles, names, 0) {
        Err(issue) => Err(issue),
        Ok(tops) => load_parents(profiles, tops, 0, Seq::empty(), Seq::empty()),
    }
}

pub open spec fn str_views(names: Seq<&str>) -> Seq<Seq<char>> {
    names.map_values(|n: &str| n@)
}

fn push_reversed(pending: &mut Vec<String>, names: &Vec<String>)
    ensures
        text_views(final(pending)@) == text_views(old(pending)@) + text_views(names@).reverse(),
{
    let ghost first = text_views(pending@);
    let ghost all = text_views(names@);
    let ghost back = all.reverse();
    let mut i: usize = names.len();
    assert(text_views(pending@) =~= first + back.take(0));
    while i > 0
        invariant
            i <= names@.len(),
            all == text_views(names@),
            back == all.reverse(),
            text_views(pending@) == first + back.take(all.len() - i),
        decreases i,
    {
        i = i - 1;
        let ghost before = text_views(pending@);
        pending.push(copy_text(names[i].as_str()));
        let ghost n = all.len() - 1 - i;
        assert(back[n] == all[i as int]);
        assert(text_views(pending@) =~= before.push(all[i as int]));
        assert(back.take(n + 1) =~= back.take(n).push(back[n]));
        assert(text_views(pending@) =~= first + back.take(n + 1));
    }
    assert(back.take(all.len() as int) =~= back);
}

impl ProfileStore {
    /// Whether the profile `profile_name` descends from `ancestor`.
    pub fn profile_inherits_profile(&self, profile_name: &str, ancestor: &str) -> (r: Result<
        bool,
        ConfigError,
    >)
        ensures
            match inherits_from(self@, profile_name@, ancestor@) {
                Ok(b) => match r {
                    Ok(c) => b == c,
                    Err(_) => false,
                },
                Err(issue) => match r {
                    Ok(_) => false,
                    Err(e) => e@ == issue,
                },
            },
    {
        let ghost profiles = self@;
        let ghost goal = inherits_from(profiles, profile_name@, ancestor@);
        let mut pending: Vec<String> = Vec::new();
        pending.push(copy_text(profile_name));
        let mut seen: Vec<String> = Vec::new();
        assert(text_views(pending@) =~= seq![profile_name@]);
        assert(text_views(seen@) =~= Seq::<Seq<char>>::empty());
        while pending.len() > 0
            invariant
                profiles == self@,
                goal == inherits_from(profiles, profile_name@, ancestor@),
                goal == search(profiles, text_views(pending@), text_views(seen@), ancestor@),
            decreases off_path(profiles, text_views(seen@)), pending@.len(),
        {
            let ghost was = text_views(pending@);
            let ghost known = text_views(seen@);
            let current_name = match pending.pop() {
                Some(name) => name,
                None => return Ok(false),
            };
            assert(was.last() == current_name@);
            assert(text_views(pending@) =~= was.drop_last());
            if crate::config::has_name(&seen, current_name.as_str()) {
                continue;
            }
            let profile = match self.profile(current_name.as_str()) {
                Some(p) => p,
                None => return Err(ConfigError::UnknownProfile(current_name)),
            };
            if crate::config::has_name(&profile.inherits, ancestor) {
                return Ok(true);
            }
            proof {
                lemma_off_path(profiles, known, current_name@);
                lemma_lookup_name(profiles, current_name@);
            }
            let ghost name = current_name@;
            seen.push(current_name);
            assert(text_views(seen@) =~= known.push(name));
            push_reversed(&mut pending, &profile.inherits);
        }
        assert(text_views(pending@) =~= Seq::<Seq<char>>::empty());
        Ok(false)
    }

    /// Whether another selected profile brings `names[candidate]`.
    fn is_brought(&self, names: &[&str], candidate: usize) -> (r: Result<bool, ConfigError>)
        requires
            candidate < names@.len(),
        ensures
            match brought(self@, str_views(names@), str_views(names@)[candidate as int], 0) {
                Ok(b) => match r {
                    Ok(c) => b == c,
                    Err(_) => false,
                },
                Err(issue) => match r {
                    Ok(_) => false,
                    Err(e) => e@ == issue,
                },
            },
    {
        let ghost all = str_views(names@);
        let name = names[candidate];
        assert(all[candidate as int] == name@);
        let mut j: usize = 0;
        while j < names.len()
            invariant
                j <= names@.len(),
                all == str_views(names@),
                all[candidate as int] == name@,
                brought(self@, all, name@, 0) == brought(self@, all, name@, j as int),
            decreases names@.len() - j,
        {
            let other = names[j];
            assert(all[j as int] == other@);
            if !same_text(other, name) {
                let descends = match self.profile_inherits_profile(other, name) {
                    Ok(b) => b,
                    Err(e) => return Err(e),
                };
                if descends {
                    let back = match self.profile_inherits_profile(name, other) {
                        Ok(b) => b,
                        Err(e) => return Err(e),
                    };
                    if back {
                        let mut names: Vec<String> = Vec::new();
                        names.push(copy_text(name));
                        names.push(copy_text(other));
                        names.push(copy_text(name));
                        assert(text_views(names@) =~= seq![name@, other@, name@]);
                        return Err(ConfigError::CyclicProfileInheritance(join_arrows(&names)));
                    }
                    return Ok(true);
                }
            }
            j = j + 1;
        }
        Ok(false)
    }

    /// The selected profiles that no other selected profile brings.
    pub fn top_level_profile_names(&self, profile_names: &[&str]) -> (r: Result<
        Vec<String>,
        ConfigError,
    >)
        ensures
            match top_level(self@, str_views(profile_names@), 0) {
                Ok(tops) => match r {
                    Ok(names) => text_views(names@) == tops,
                    Err(_) => false,
                },
                Err(issue) => match r {
                    Ok(_) => false,
                    Err(e) => e@ == issue,
                },
            },
    {
        let ghost all = str_views(profile_names@);
        let ghost goal = top_level(self@, all, 0);
        let mut tops: Vec<String> = Vec::new();
        let mut i: usize = 0;
        proof {
            if let Ok(rest) = goal {
                assert(text_views(tops@) + rest =~= rest);
            }
        }
        while i < profile_names.len()
            invariant
                i <= profile_names@.len(),
                all == str_views(profile_names@),
                goal == top_level(self@, all, 0),
                goal == match top_level(self@, all, i as int) {
                    Ok(rest) => Ok::<Seq<Seq<char>>, ConfigIssue>(text_views(tops@) + rest),
                    Err(issue) => Err(issue),
                },
            decreases profile_names@.len() - i,
        {
            let ghost before = text_views(tops@);
            assert(all[i as int] == profile_names@[i as int]@);
            let is_brought = match self.is_brought(profile_names, i) {
                Ok(b) => b,
                Err(e) => return Err(e),
            };
            if !is_brought {
                tops.push(copy_text(profile_names[i]));
                assert(text_views(tops@) =~= before.push(all[i as int]));
                proof {
                    if let Ok(rest) = top_level(self@, all, i + 1) {
                        assert(before + (seq![all[i as int]] + rest) =~= text_views(tops@) + rest);
                    }
                }
            }
            i = i + 1;
        }
        assert(text_views(tops@) + Seq::<Seq<char>>::empty() =~= text_views(tops@));
        Ok(tops)
    }
}

impl PrismConfig {
    /// The configuration of the selected profiles: their rules with those they
    /// inherit.
    pub fn from_profiles(store: &ProfileStore, profile_names: &[&str]) -> (r: Result<
        PrismConfig,
        ConfigError,
    >)
        ensures
            match selected(store@, str_views(profile_names@)) {
                Ok(l) => match r {
                    Ok(config) => config@.rules == l.rules && config@.enabled_profiles == l.loaded,
                    Err(_) => false,
                },
                Err(issue) => match r {
                    Ok(_) => false,
                    Err(e) => e@ == issue,
                },
            },
    {
        let ghost profiles = store@;
        let ghost goal = selected(profiles, str_views(profile_names@));
        let tops = match store.top_level_profile_names(profile_names) {
            Ok(tops) => tops,
            Err(e) => return Err(e),
        };
        let ghost all = text_views(tops@);
        let ghost none = Seq::<Seq<char>>::empty();
        let mut rules: Vec<RuleSpec> = Vec::new();
        let mut loaded = NameSet::new();
        let mut i: usize = 0;
        proof {
            assert(loaded@ =~= none);
            if let Ok(l) = goal {
                assert(rule_views(rules@) + l.rules =~= l.rules);
            }
        }
        while i < tops.len()
            invariant
                i <= tops@.len(),
                profiles == store@,
                all == text_views(tops@),
                goal == selected(profiles, str_views(profile_names@)),
                names_in_order(loaded@),
                none == Seq::<Seq<char>>::empty(),
                goal == match load_parents(profiles, all, i as int, loaded@, none) {
                    Ok(l) => Ok::<Loaded, ConfigIssue>(l.after(rule_views(rules@))),
                    Err(issue) => Err(issue),
                },
            decreases tops@.len() - i,
        {
            let ghost before = rule_views(rules@);
            let ghost was = loaded@;
            assert(all[i as int] == tops@[i as int]@);
            match store.append_profile_rules(tops[i].as_str(), &mut loaded, &mut rules) {
                Ok(()) => {},
                Err(e) => return Err(e),
            }
            proof {
                if let Ok(l) = load(profiles, all[i as int], was, none) {
                    if let Ok(m) = load_parents(profiles, all, i + 1, l.loaded, none) {
                        assert(before + (l.rules + m.rules) =~= (before + l.rules) + m.rules);
                    }
                }
            }
            i = i + 1;
        }
        assert(rule_views(rules@) + Seq::<RuleView>::empty() =~= rule_views(rules@));
        Ok(PrismConfig { rules, enabled_profiles: loaded.into_names() })
    }
}

} // verus!
