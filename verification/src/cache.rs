//! Compiled highlighters, kept by the profiles they were made from.

use vstd::prelude::*;

use crate::highlight::{Highlighter, HighlighterView};
use crate::profile_runtime::same_names;
use crate::signals::copy_texts;
use crate::text::text_views;

verus! {

/// How many sets of profiles are kept.
pub const HIGHLIGHTER_CACHE_LIMIT: usize = 32;

/// A set of profiles and the highlighter made from it.
pub struct CachedView {
    pub names: Seq<Seq<char>>,
    pub highlighter: HighlighterView,
}

/// Where `names` stands among `entries` from `i` on.
pub open spec fn entry_from(entries: Seq<CachedView>, names: Seq<Seq<char>>, i: int) -> Option<int>
    decreases entries.len() - i,
{
    if i < 0 || i >= entries.len() {
        None
    } else if entries[i].names == names {
        Some(i)
    } else {
        entry_from(entries, names, i + 1)
    }
}

pub open spec fn entry_of(entries: Seq<CachedView>, names: Seq<Seq<char>>) -> Option<int> {
    entry_from(entries, names, 0)
}

/// The entries once the one at `i` has been used.
pub open spec fn used(entries: Seq<CachedView>, i: int) -> Seq<CachedView> {
    entries.remove(i).push(entries[i])
}

/// The entries with a new one; the one not used for longest makes room.
pub open spec fn with_entry(entries: Seq<CachedView>, entry: CachedView) -> Seq<CachedView> {
    if entries.len() >= HIGHLIGHTER_CACHE_LIMIT {
        entries.skip(1).push(entry)
    } else {
        entries.push(entry)
    }
}

/// The entries once a highlighter for `names` is there.
pub open spec fn supplied(entries: Seq<CachedView>, entry: CachedView) -> Seq<CachedView> {
    match entry_of(entries, entry.names) {
        Some(i) => used(entries, i),
        None => with_entry(entries, entry),
    }
}

/// No set of profiles is there twice.
pub open spec fn names_differ(entries: Seq<CachedView>) -> bool {
    forall|a: int, b: int|
        0 <= a < b < entries.len() ==> #[trigger] entries[a].names != #[trigger] entries[b].names
}

pub proof fn lemma_entry_from(entries: Seq<CachedView>, names: Seq<Seq<char>>, i: int)
    requires
        0 <= i,
    ensures
        match entry_from(entries, names, i) {
            Some(k) => i <= k < entries.len() && entries[k].names == names,
            None => forall|k: int| i <= k < entries.len() ==> #[trigger] entries[k].names != names,
        },
    decreases entries.len() - i,
{
    if i < entries.len() && entries[i].names != names {
        lemma_entry_from(entries, names, i + 1);
    }
}

/// Where there is room everything stays in its order; where there are 32
/// highlighters already, the one not used for longest makes room. One that is
/// there is used again and is then the last to go.
pub proof fn the_one_not_used_for_longest_goes(entries: Seq<CachedView>, entry: CachedView, k: int)
    requires
        0 <= k < entries.len() <= 32,
    ensures
        ({
            let next = supplied(entries, entry);
            let known = exists|i: int|
                0 <= i < entries.len() && (#[trigger] entries[i]).names == entry.names;
            &&& !known ==> next.last() == entry
            &&& !known && entries.len() < 32 ==> next.len() == entries.len() + 1 && next[k]
                == entries[k]
            &&& !known && entries.len() == 32 && k > 0 ==> next.len() == 32 && next[k - 1]
                == entries[k]
            &&& known ==> next.len() == entries.len() && next.last().names == entry.names
                && entries.contains(next.last())
        }),
{
    lemma_entry_from(entries, entry.names, 0);
}

/// The cache stays within its bound, and no set of profiles is in it twice;
/// the set last asked for is the last to go.
pub proof fn supplying_keeps_bound(entries: Seq<CachedView>, entry: CachedView)
    requires
        names_differ(entries),
        entries.len() <= HIGHLIGHTER_CACHE_LIMIT,
    ensures
        names_differ(supplied(entries, entry)),
        supplied(entries, entry).len() <= HIGHLIGHTER_CACHE_LIMIT,
        supplied(entries, entry).last().names == entry.names,
{
    lemma_entry_from(entries, entry.names, 0);
    let next = supplied(entries, entry);
    match entry_of(entries, entry.names) {
        Some(i) => {
            let rest = entries.remove(i);
            assert forall|a: int, b: int| 0 <= a < b < next.len() implies #[trigger] next[a].names
                != #[trigger] next[b].names by {
                let from = if a < i { a } else { a + 1 };
                assert(next[a] == entries[from]);
                if b < rest.len() {
                    let to = if b < i { b } else { b + 1 };
                    assert(next[b] == entries[to]);
                } else {
                    assert(next[b] == entries[i]);
                }
            }
        },
        None => {
            let gone: int = if entries.len() >= HIGHLIGHTER_CACHE_LIMIT { 1 } else { 0 };
            assert forall|a: int, b: int| 0 <= a < b < next.len() implies #[trigger] next[a].names
                != #[trigger] next[b].names by {
                assert(next[a] == entries[a + gone]);
                if b + 1 < next.len() {
                    assert(next[b] == entries[b + gone]);
                }
            }
        },
    }
}

struct CacheEntry {
    names: Vec<String>,
    highlighter: Highlighter,
}

impl View for CacheEntry {
    type V = CachedView;

    closed spec fn view(&self) -> CachedView {
        CachedView { names: text_views(self.names@), highlighter: self.highlighter@ }
    }
}

/// Highlighters by the profiles they were made from, the one not used for
/// longest first.
pub struct HighlighterCache {
    entries: Vec<CacheEntry>,
}

spec fn entry_views(entries: Seq<CacheEntry>) -> Seq<CachedView> {
    entries.map_values(|e: CacheEntry| e@)
}

impl View for HighlighterCache {
    type V = Seq<CachedView>;

    closed spec fn view(&self) -> Seq<CachedView> {
        entry_views(self.entries@)
    }
}

impl Default for HighlighterCache {
    fn default() -> (r: Self)
        ensures
            r@ == Seq::<CachedView>::empty(),
    {
        let r = HighlighterCache { entries: Vec::new() };
        assert(r@ =~= Seq::<CachedView>::empty());
        r
    }
}

impl HighlighterCache {
    fn position(&self, profile_names: &Vec<String>) -> (r: Option<usize>)
        ensures
            match r {
                Some(i) => entry_of(self@, text_views(profile_names@)) == Some(i as int) && i
                    < self.entries@.len(),
                None => entry_of(self@, text_views(profile_names@)) is None,
            },
    {
        let ghost names = text_views(profile_names@);
        let mut i: usize = 0;
        while i < self.entries.len()
            invariant
                i <= self.entries@.len(),
                names == text_views(profile_names@),
                entry_of(self@, names) == entry_from(self@, names, i as int),
            decreases self.entries@.len() - i,
        {
            assert(self@[i as int] == self.entries@[i as int]@);
            if same_names(&self.entries[i].names, profile_names) {
                return Some(i);
            }
            i = i + 1;
        }
        None
    }

    /// How many sets of profiles are there.
    pub fn len(&self) -> (r: usize)
        ensures
            r == self@.len(),
    {
        assert(self@.len() == self.entries@.len());
        self.entries.len()
    }

    fn touch(&mut self, i: usize)
        requires
            i < old(self)@.len(),
        ensures
            final(self)@ == used(old(self)@, i as int),
    {
        let ghost before = self.entries@;
        let entry = self.entries.remove(i);
        self.entries.push(entry);
        assert(self.entries@ =~= before.remove(i as int).push(before[i as int]));
        assert(self@ =~= used(old(self)@, i as int));
    }

    fn insert(&mut self, profile_names: &Vec<String>, highlighter: Highlighter)
        ensures
            final(self)@ == with_entry(
                old(self)@,
                CachedView { names: text_views(profile_names@), highlighter: highlighter@ },
            ),
    {
        let ghost first = self.entries@;
        let ghost goal = with_entry(
            self@,
            CachedView { names: text_views(profile_names@), highlighter: highlighter@ },
        );
        assert(self@.len() == self.entries@.len());
        if self.entries.len() >= HIGHLIGHTER_CACHE_LIMIT {
            let _ = self.entries.remove(0);
            assert(self.entries@ =~= first.skip(1));
        }
        let ghost before = self.entries@;
        self.entries.push(CacheEntry { names: copy_texts(profile_names), highlighter });
        assert(self.entries@ =~= before.push(self.entries@.last()));
        assert(self@ =~= goal);
    }

    /// The highlighter for these profiles, if one is there.
    pub fn get(&mut self, profile_names: &Vec<String>) -> (r: Option<Highlighter>)
        ensures
            match entry_of(old(self)@, text_views(profile_names@)) {
                Some(i) => r matches Some(h) && h@ == old(self)@[i].highlighter && final(self)@
                    == used(old(self)@, i),
                None => r is None && final(self)@ == old(self)@,
            },
    {
        match self.position(profile_names) {
            Some(i) => {
                assert(self@[i as int] == self.entries@[i as int]@);
                let highlighter = self.entries[i].highlighter.duplicate();
                self.touch(i);
                Some(highlighter)
            },
            None => None,
        }
    }

    /// The highlighter for these profiles: the one that is there, or what
    /// `build` makes, which is there from then on.
    pub fn get_or_build<E, F: FnOnce() -> Result<Highlighter, E>>(
        &mut self,
        profile_names: &Vec<String>,
        build: F,
    ) -> (r: Result<Highlighter, E>)
        requires
            build.requires(()),
        ensures
            match entry_of(old(self)@, text_views(profile_names@)) {
                Some(i) => match r {
                    Ok(h) => h@ == old(self)@[i].highlighter && final(self)@ == used(old(self)@, i),
                    Err(_) => false,
                },
                None => build.ensures((), r) && match r {
                    Ok(h) => final(self)@ == with_entry(
                        old(self)@,
                        CachedView { names: text_views(profile_names@), highlighter: h@ },
                    ),
                    Err(_) => final(self)@ == old(self)@,
                },
            },
    {
        if let Some(highlighter) = self.get(profile_names) {
            return Ok(highlighter);
        }
        match build() {
            Ok(highlighter) => {
                self.insert(profile_names, highlighter.duplicate());
                Ok(highlighter)
            },
            Err(error) => Err(error),
        }
    }

    /// Forgets everything but one highlighter.
    pub fn replace_generation(&mut self, profile_names: &Vec<String>, highlighter: &Highlighter)
        ensures
            final(self)@ == seq![
                CachedView { names: text_views(profile_names@), highlighter: highlighter@ },
            ],
    {
        self.entries = Vec::new();
        assert(self@ =~= Seq::<CachedView>::empty());
        self.insert(profile_names, highlighter.duplicate());
        assert(self@ =~= seq![
            CachedView { names: text_views(profile_names@), highlighter: highlighter@ },
        ]);
    }

    /// Adds a highlighter, unless one for these profiles is there.
    pub fn insert_prebuilt(&mut self, profile_names: &Vec<String>, highlighter: &Highlighter)
        ensures
            final(self)@ == supplied(
                old(self)@,
                CachedView { names: text_views(profile_names@), highlighter: highlighter@ },
            ),
    {
        match self.position(profile_names) {
            Some(i) => self.touch(i),
            None => self.insert(profile_names, highlighter.duplicate()),
        }
    }
}

} // verus!
