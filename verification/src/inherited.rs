//! Laws about inheritance: a profile brings its own rules first, then those of
//! all that it inherits, each profile once.

use vstd::prelude::*;

use crate::config::{ConfigIssue, RuleView};
use crate::inheritance::{
    brought, inherits_from, lemma_lookup_name, lemma_name_rank, lemma_off_path, load, load_parents,
    name_rank, off_path, search, selected, top_level, with_name, Loaded,
};
use crate::profiles::{lookup, ProfileView};

verus! {

/// How many rules the named profiles have in all.
pub open spec fn rules_in_all(profiles: Seq<ProfileView>, names: Seq<Seq<char>>) -> int
    decreases names.len(),
{
    if names.len() == 0 {
        0
    } else {
        rules_in_all(profiles, names.drop_last()) + match lookup(profiles, names.last()) {
            Some(p) => p.rules.len() as int,
            None => 0,
        }
    }
}

/// `after` has the profiles of `before`, and with each new one all that it
/// inherits.
pub open spec fn brings_parents(
    profiles: Seq<ProfileView>,
    before: Seq<Seq<char>>,
    after: Seq<Seq<char>>,
) -> bool {
    &&& forall|x: Seq<char>| #[trigger] before.contains(x) ==> after.contains(x)
    &&& forall|x: Seq<char>| #[trigger]
        after.contains(x) && !before.contains(x) ==> lookup(profiles, x) is Some && forall|k: int|
            0 <= k < lookup(profiles, x)->Some_0.inherits.len() ==> after.contains(
                #[trigger] lookup(profiles, x)->Some_0.inherits[k],
            )
}

proof fn lemma_inserted(names: Seq<Seq<char>>, i: int, name: Seq<char>, x: Seq<char>)
    requires
        0 <= i <= names.len(),
    ensures
        names.insert(i, name).contains(x) <==> names.contains(x) || x == name,
{
    let all = names.insert(i, name);
    assert(all[i] == name);
    if names.contains(x) {
        let k = choose|k: int| 0 <= k < names.len() && names[k] == x;
        if k < i {
            assert(all[k] == x);
        } else {
            assert(all[k + 1] == x);
        }
    }
    if all.contains(x) && x != name {
        let k = choose|k: int| 0 <= k < all.len() && all[k] == x;
        if k < i {
            assert(names[k] == x);
        } else {
            assert(names[k - 1] == x);
        }
    }
}

proof fn lemma_total_inserted(
    profiles: Seq<ProfileView>,
    names: Seq<Seq<char>>,
    i: int,
    name: Seq<char>,
)
    requires
        0 <= i <= names.len(),
    ensures
        rules_in_all(profiles, names.insert(i, name)) == rules_in_all(profiles, names) + match lookup(
            profiles,
            name,
        ) {
            Some(p) => p.rules.len() as int,
            None => 0,
        },
    decreases names.len(),
{
    let all = names.insert(i, name);
    if i == names.len() {
        assert(all.drop_last() =~= names);
        assert(all.last() == name);
    } else {
        assert(all.drop_last() =~= names.drop_last().insert(i, name));
        assert(all.last() == names.last());
        lemma_total_inserted(profiles, names.drop_last(), i, name);
    }
}

proof fn lemma_named(profiles: Seq<ProfileView>, names: Seq<Seq<char>>, name: Seq<char>)
    requires
        !names.contains(name),
    ensures
        forall|x: Seq<char>| #[trigger]
            with_name(names, name).contains(x) <==> names.contains(x) || x == name,
        rules_in_all(profiles, with_name(names, name)) == rules_in_all(profiles, names)
            + match lookup(profiles, name) {
            Some(p) => p.rules.len() as int,
            None => 0,
        },
{
    let i = name_rank(names, name, 0);
    lemma_name_rank(names, name, 0);
    assert forall|x: Seq<char>| #[trigger] with_name(names, name).contains(x) <==> names.contains(x)
        || x == name by {
        lemma_inserted(names, i, name, x);
    }
    lemma_total_inserted(profiles, names, i, name);
}

proof fn lemma_load(
    profiles: Seq<ProfileView>,
    name: Seq<char>,
    loaded: Seq<Seq<char>>,
    path: Seq<Seq<char>>,
)
    ensures
        load(profiles, name, loaded, path) matches Ok(l) ==> {
            &&& l.loaded.contains(name)
            &&& brings_parents(profiles, loaded, l.loaded)
            &&& forall|x: Seq<char>| #[trigger]
                path.contains(x) && !loaded.contains(x) ==> !l.loaded.contains(x)
            &&& rules_in_all(profiles, l.loaded) == rules_in_all(profiles, loaded) + l.rules.len()
        },
    decreases off_path(profiles, path), 0nat,
{
    if loaded.contains(name) {
    } else if path.contains(name) {
    } else if let Some(p) = lookup(profiles, name) {
        lemma_off_path(profiles, path, name);
        lemma_lookup_name(profiles, name);
        let longer = path.push(name);
        lemma_load_parents(profiles, p.inherits, 0, loaded, longer);
        if let Ok(l) = load_parents(profiles, p.inherits, 0, loaded, longer) {
            assert(longer[path.len() as int] == name);
            assert(longer.contains(name));
            assert(!l.loaded.contains(name));
            lemma_named(profiles, l.loaded, name);
            let all = with_name(l.loaded, name);
            assert forall|x: Seq<char>| #[trigger] path.contains(x) && !loaded.contains(
                x,
            ) implies !all.contains(x) by {
                let k = choose|k: int| 0 <= k < path.len() && path[k] == x;
                assert(longer[k] == x);
                assert(longer.contains(x));
            }
            assert forall|x: Seq<char>| #[trigger] all.contains(x) && !loaded.contains(x) implies {
                &&& lookup(profiles, x) is Some
                &&& forall|k: int|
                    0 <= k < lookup(profiles, x)->Some_0.inherits.len() ==> all.contains(
                        #[trigger] lookup(profiles, x)->Some_0.inherits[k],
                    )
            } by {
                if x == name {
                    assert forall|k: int| 0 <= k < p.inherits.len() implies all.contains(
                        #[trigger] p.inherits[k],
                    ) by {
                        assert(l.loaded.contains(p.inherits[k]));
                    }
                } else {
                    assert(l.loaded.contains(x));
                }
            }
            assert forall|x: Seq<char>| #[trigger] loaded.contains(x) implies all.contains(x) by {
                assert(l.loaded.contains(x));
            }
        }
    }
}

proof fn lemma_load_parents(
    profiles: Seq<ProfileView>,
    parents: Seq<Seq<char>>,
    i: int,
    loaded: Seq<Seq<char>>,
    path: Seq<Seq<char>>,
)
    requires
        0 <= i <= parents.len(),
    ensures
        load_parents(profiles, parents, i, loaded, path) matches Ok(l) ==> {
            &&& forall|k: int| i <= k < parents.len() ==> l.loaded.contains(#[trigger] parents[k])
            &&& brings_parents(profiles, loaded, l.loaded)
            &&& forall|x: Seq<char>| #[trigger]
                path.contains(x) && !loaded.contains(x) ==> !l.loaded.contains(x)
            &&& rules_in_all(profiles, l.loaded) == rules_in_all(profiles, loaded) + l.rules.len()
        },
    decreases off_path(profiles, path), 1 + parents.len() - i,
{
    if i < parents.len() {
        lemma_load(profiles, parents[i], loaded, path);
        if let Ok(l) = load(profiles, parents[i], loaded, path) {
            lemma_load_parents(profiles, parents, i + 1, l.loaded, path);
            if let Ok(m) = load_parents(profiles, parents, i + 1, l.loaded, path) {
                assert forall|x: Seq<char>| #[trigger] loaded.contains(x) implies m.loaded.contains(
                    x,
                ) by {
                    assert(l.loaded.contains(x));
                }
                assert forall|k: int| i <= k < parents.len() implies m.loaded.contains(
                    #[trigger] parents[k],
                ) by {
                    if k == i {
                        assert(l.loaded.contains(parents[i]));
                    }
                }
                assert forall|x: Seq<char>| #[trigger] m.loaded.contains(x) && !loaded.contains(
                    x,
                ) implies {
                    &&& lookup(profiles, x) is Some
                    &&& forall|k: int|
                        0 <= k < lookup(profiles, x)->Some_0.inherits.len() ==> m.loaded.contains(
                            #[trigger] lookup(profiles, x)->Some_0.inherits[k],
                        )
                } by {
                    if l.loaded.contains(x) {
                        let p = lookup(profiles, x)->Some_0;
                        assert forall|k: int| 0 <= k < p.inherits.len() implies m.loaded.contains(
                            #[trigger] p.inherits[k],
                        ) by {
                            assert(l.loaded.contains(p.inherits[k]));
                        }
                    }
                }
                assert forall|x: Seq<char>| #[trigger] path.contains(x) && !loaded.contains(
                    x,
                ) implies !m.loaded.contains(x) by {
                    assert(!l.loaded.contains(x));
                }
            }
        }
    }
}

/// A profile brings itself and, with each profile that it brings, all that
/// this inherits. Its own rules come first, and no profile brings its rules
/// twice.
pub proof fn profiles_bring_what_they_inherit(
    profiles: Seq<ProfileView>,
    name: Seq<char>,
    l: Loaded,
)
    requires
        load(profiles, name, Seq::empty(), Seq::empty()) == Ok::<Loaded, ConfigIssue>(l),
    ensures
        l.loaded.contains(name),
        brings_parents(profiles, Seq::empty(), l.loaded),
        l.rules.len() == rules_in_all(profiles, l.loaded),
        lookup(profiles, name) matches Some(p) && p.rules.len() <= l.rules.len() && l.rules.take(
            p.rules.len() as int,
        ) == p.rules,
{
    lemma_load(profiles, name, Seq::empty(), Seq::empty());
    let p = lookup(profiles, name)->Some_0;
    assert(l.rules.take(p.rules.len() as int) =~= p.rules);
}

/// The rules of a profile without parents are its own; those of one with one
/// parent are its own and then the parent's.
pub proof fn rules_of_parents_follow(
    profiles: Seq<ProfileView>,
    name: Seq<char>,
    parent: Seq<char>,
    p: ProfileView,
    q: ProfileView,
)
    requires
        lookup(profiles, name) == Some(p),
        lookup(profiles, parent) == Some(q),
        name != parent,
        p.inherits == seq![parent],
        q.inherits.len() == 0,
    ensures
        load(profiles, parent, Seq::empty(), Seq::empty()) matches Ok(l) && l.rules == q.rules,
        load(profiles, name, Seq::empty(), Seq::empty()) matches Ok(l) && l.rules == p.rules
            + q.rules,
{
    let none = Seq::<Seq<char>>::empty();
    let no_rules = Seq::<RuleView>::empty();
    reveal_with_fuel(load, 3);
    reveal_with_fuel(load_parents, 3);
    lemma_off_path(profiles, none, name);
    lemma_off_path(profiles, none, parent);
    lemma_off_path(profiles, none.push(name), parent);
    lemma_lookup_name(profiles, name);
    lemma_lookup_name(profiles, parent);
    assert(q.rules + no_rules =~= q.rules);
    assert(!none.push(name).contains(parent)) by {
        assert(none.push(name)[0] == name);
    }
    assert(load_parents(profiles, q.inherits, 0, none, none.push(parent)) == Ok::<
        Loaded,
        ConfigIssue,
    >(Loaded { rules: no_rules, loaded: none }));
    assert(load_parents(profiles, q.inherits, 0, none, none.push(name).push(parent)) == Ok::<
        Loaded,
        ConfigIssue,
    >(Loaded { rules: no_rules, loaded: none }));
    assert(p.inherits[0] == parent);
    let l = load(profiles, parent, none, none.push(name))->Ok_0;
    assert(l.rules == q.rules);
    assert(load_parents(profiles, p.inherits, 1, l.loaded, none.push(name)) == Ok::<
        Loaded,
        ConfigIssue,
    >(Loaded { rules: no_rules, loaded: l.loaded }));
}

/// Selected by itself, a profile is what it brings.
pub proof fn one_profile_is_selected_with_its_parents(profiles: Seq<ProfileView>, name: Seq<char>)
    ensures
        selected(profiles, seq![name]) == match load(
            profiles,
            name,
            Seq::empty(),
            Seq::empty(),
        ) {
            Ok(l) => Ok::<Loaded, ConfigIssue>(l),
            Err(issue) => Err(issue),
        },
{
    let names = seq![name];
    reveal_with_fuel(brought, 3);
    reveal_with_fuel(top_level, 3);
    reveal_with_fuel(load_parents, 3);
    assert(names[0] == name);
    assert(brought(profiles, names, name, 0) == Ok::<bool, ConfigIssue>(false));
    assert(seq![name] + Seq::<Seq<char>>::empty() =~= names);
    assert(top_level(profiles, names, 0) == Ok::<Seq<Seq<char>>, ConfigIssue>(
        names,
    ));
    if let Ok(l) = load(profiles, name, Seq::empty(), Seq::empty()) {
        assert(l.rules + Seq::<RuleView>::empty() =~= l.rules);
    }
}

/// Selecting a parent beside its child brings nothing more, in either order.
pub proof fn parents_need_not_be_selected(
    profiles: Seq<ProfileView>,
    name: Seq<char>,
    parent: Seq<char>,
    p: ProfileView,
    q: ProfileView,
)
    requires
        lookup(profiles, name) == Some(p),
        lookup(profiles, parent) == Some(q),
        name != parent,
        p.inherits == seq![parent],
        q.inherits.len() == 0,
    ensures
        selected(profiles, seq![parent, name]) matches Ok(l) && l.rules == p.rules + q.rules,
        selected(profiles, seq![name, parent]) matches Ok(l) && l.rules == p.rules + q.rules,
        selected(profiles, seq![name]) matches Ok(l) && l.rules == p.rules + q.rules,
{
    let none = Seq::<Seq<char>>::empty();
    rules_of_parents_follow(profiles, name, parent, p, q);
    one_profile_is_selected_with_its_parents(profiles, name);
    reveal_with_fuel(search, 3);
    lemma_off_path(profiles, none, parent);
    lemma_off_path(profiles, none, name);
    lemma_lookup_name(profiles, name);
    lemma_lookup_name(profiles, parent);
    assert(p.inherits[0] == parent);
    assert(p.inherits.contains(parent));
    assert(!q.inherits.contains(name));
    assert(seq![name].last() == name && seq![parent].last() == parent);
    assert(inherits_from(profiles, name, parent) == Ok::<bool, ConfigIssue>(true));
    assert(seq![parent].drop_last() + q.inherits.reverse() =~= none);
    assert(inherits_from(profiles, parent, name) == Ok::<bool, ConfigIssue>(false));
    reveal_with_fuel(brought, 4);
    reveal_with_fuel(top_level, 4);
    let a = seq![parent, name];
    let b = seq![name, parent];
    assert(a[0] == parent && a[1] == name && b[0] == name && b[1] == parent);
    assert(brought(profiles, a, parent, 0) == Ok::<bool, ConfigIssue>(true));
    assert(brought(profiles, a, name, 0) == Ok::<bool, ConfigIssue>(false));
    assert(brought(profiles, b, parent, 0) == Ok::<bool, ConfigIssue>(true));
    assert(brought(profiles, b, name, 0) == Ok::<bool, ConfigIssue>(false));
    assert(seq![name] + none =~= seq![name]);
    assert(top_level(profiles, a, 0) == Ok::<Seq<Seq<char>>, ConfigIssue>(seq![name]));
    assert(top_level(profiles, b, 0) == Ok::<Seq<Seq<char>>, ConfigIssue>(seq![name]));
    let l = load(profiles, name, none, none)->Ok_0;
    reveal_with_fuel(load_parents, 3);
    assert(l.rules + Seq::<RuleView>::empty() =~= l.rules);
}

} // verus!
