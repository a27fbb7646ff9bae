//! Search for the detection hints of all profiles in one pass over a text: an
//! Aho-Corasick automaton over the symbols of the text.

use vstd::prelude::*;
use vstd::string::*;
use vstd::utf8::*;

use crate::bytes::to_lower;
use crate::hints::{
    closing, open_symbols, stands_at, stands_in, symbols, unit, word_byte,
    DETECTION_BOUNDARY_SYMBOL,
};

verus! {

/// An edge of the automaton.
#[derive(Clone, Copy, Debug)]
pub struct DetectionTransition {
    pub symbol: u16,
    pub target: usize,
}

/// A state of the automaton.
#[derive(Clone, Debug)]
pub struct DetectionNode {
    /// Edges, in the order of their symbols.
    pub transitions: Vec<DetectionTransition>,
    /// The state for the longest proper suffix that is a state.
    pub failure: usize,
    /// The next state among the suffixes that ends a hint.
    pub output_link: Option<usize>,
    /// The profiles of which a hint ends here.
    pub profile_outputs: Vec<usize>,
}

/// The automaton. Each state stands for a word over the symbols: the
/// beginning of a hint.
pub struct DetectionMatcher {
    nodes: Vec<DetectionNode>,
    profile_count: usize,
    profiles_with_hints: usize,
    pattern_count: usize,
    words: Ghost<Seq<Seq<u16>>>,
    patterns: Ghost<Set<(Seq<u16>, int)>>,
}

/// What a scan did.
#[derive(Clone, Copy, Debug)]
pub struct DetectionScanMetrics {
    pub bytes_examined: usize,
    pub symbols_examined: usize,
    pub transition_lookups: usize,
    pub failure_steps: usize,
    pub output_checks: usize,
}

/// The size of an automaton.
#[derive(Clone, Copy, Debug)]
pub struct DetectionMatcherStructure {
    pub node_count: usize,
    pub edge_count: usize,
    pub transition_slots: usize,
    pub pattern_count: usize,
}

/// The longest suffix of `x` among the words.
pub open spec fn longest_suffix(words: Seq<Seq<u16>>, x: Seq<u16>) -> Seq<u16>
    decreases x.len(),
{
    if x.len() == 0 || words.contains(x) {
        x
    } else {
        longest_suffix(words, x.drop_first())
    }
}

/// A pattern of profile `p` is a suffix of `x`.
pub open spec fn hits(patterns: Set<(Seq<u16>, int)>, x: Seq<u16>, p: int) -> bool
    decreases x.len(),
{
    patterns.contains((x, p)) || (x.len() > 0 && hits(patterns, x.drop_first(), p))
}

/// The beginnings of words are words.
pub open spec fn prefix_closed(words: Seq<Seq<u16>>) -> bool {
    &&& words.len() > 0
    &&& words[0] == Seq::<u16>::empty()
    &&& forall|n: int| 0 < n < words.len() ==> (#[trigger] words[n]).len() > 0 && words.contains(
        words[n].drop_last(),
    )
}

proof fn lemma_longest_suffix(words: Seq<Seq<u16>>, x: Seq<u16>)
    requires
        prefix_closed(words),
    ensures
        words.contains(longest_suffix(words, x)),
        longest_suffix(words, x).len() <= x.len(),
    decreases x.len(),
{
    if x.len() == 0 {
        assert(x =~= words[0]);
    } else if !words.contains(x) {
        lemma_longest_suffix(words, x.drop_first());
    }
}

/// The state behind one more symbol depends on the state alone.
proof fn lemma_suffix_step(words: Seq<Seq<u16>>, x: Seq<u16>, c: u16)
    requires
        prefix_closed(words),
    ensures
        longest_suffix(words, x.push(c)) == longest_suffix(
            words,
            longest_suffix(words, x).push(c),
        ),
    decreases x.len(),
{
    if x.len() > 0 && !words.contains(x) {
        if words.contains(x.push(c)) {
            let n = choose|n: int| 0 <= n < words.len() && words[n] == x.push(c);
            assert(x.push(c).drop_last() =~= x);
            assert(n > 0);
            assert(false);
        }
        assert(x.push(c).drop_first() =~= x.drop_first().push(c));
        lemma_suffix_step(words, x.drop_first(), c);
    }
}

/// Which patterns end at a place depends on the state alone.
proof fn lemma_hits_state(
    words: Seq<Seq<u16>>,
    patterns: Set<(Seq<u16>, int)>,
    x: Seq<u16>,
    p: int,
)
    requires
        forall|w: Seq<u16>, q: int| #[trigger] patterns.contains((w, q)) ==> words.contains(w),
    ensures
        hits(patterns, x, p) == hits(patterns, longest_suffix(words, x), p),
    decreases x.len(),
{
    if x.len() > 0 && !words.contains(x) {
        assert(!patterns.contains((x, p)));
        lemma_hits_state(words, patterns, x.drop_first(), p);
    }
}

/// `hits` in one step: there is a suffix that is a pattern.
proof fn lemma_hits_suffix(patterns: Set<(Seq<u16>, int)>, x: Seq<u16>, p: int)
    ensures
        hits(patterns, x, p) == exists|i: int|
            0 <= i <= x.len() && patterns.contains((#[trigger] x.subrange(i, x.len() as int), p)),
    decreases x.len(),
{
    assert(x.subrange(0, x.len() as int) =~= x);
    if x.len() > 0 {
        let y = x.drop_first();
        lemma_hits_suffix(patterns, y, p);
        assert forall|i: int| 0 <= i <= y.len() implies #[trigger] y.subrange(i, y.len() as int)
            == x.subrange(i + 1, x.len() as int) by {
            assert(y.subrange(i, y.len() as int) =~= x.subrange(i + 1, x.len() as int));
        }
        if hits(patterns, y, p) {
            let i = choose|i: int|
                0 <= i <= y.len() && patterns.contains(
                    (#[trigger] y.subrange(i, y.len() as int), p),
                );
            assert(patterns.contains((x.subrange(i + 1, x.len() as int), p)));
        }
        if exists|i: int|
            0 <= i <= x.len() && patterns.contains((#[trigger] x.subrange(i, x.len() as int), p)) {
            let i = choose|i: int|
                0 <= i <= x.len() && patterns.contains(
                    (#[trigger] x.subrange(i, x.len() as int), p),
                );
            if i > 0 {
                assert(patterns.contains((y.subrange(i - 1, y.len() as int), p)));
            }
        }
    } else {
        assert forall|i: int| 0 <= i <= x.len() implies #[trigger] x.subrange(i, x.len() as int)
            == x by {
            assert(x.subrange(i, x.len() as int) =~= x);
        }
    }
}

/// A pattern of profile `p` ends somewhere in `x`.
pub open spec fn found(patterns: Set<(Seq<u16>, int)>, x: Seq<u16>, p: int) -> bool
    decreases x.len(),
{
    hits(patterns, x, p) || (x.len() > 0 && found(patterns, x.drop_last(), p))
}

proof fn lemma_found_prefix(patterns: Set<(Seq<u16>, int)>, x: Seq<u16>, n: int, p: int)
    requires
        0 <= n <= x.len(),
        found(patterns, x.take(n), p),
    ensures
        found(patterns, x, p),
    decreases x.len() - n,
{
    if n == x.len() {
        assert(x.take(n) =~= x);
    } else {
        assert(x.take(n + 1).drop_last() =~= x.take(n));
        lemma_found_prefix(patterns, x, n + 1, p);
    }
}

/// What ends somewhere in `x` is what stands in `x`.
pub proof fn lemma_found_stands(patterns: Set<(Seq<u16>, int)>, x: Seq<u16>, p: int)
    ensures
        found(patterns, x, p) == exists|w: Seq<u16>| #[trigger]
            patterns.contains((w, p)) && stands_in(x, w),
    decreases x.len(),
{
    lemma_hits_suffix(patterns, x, p);
    if hits(patterns, x, p) {
        let i = choose|i: int|
            0 <= i <= x.len() && patterns.contains((#[trigger] x.subrange(i, x.len() as int), p));
        let w = x.subrange(i, x.len() as int);
        assert(stands_at(x, w, i));
        assert(patterns.contains((w, p)) && stands_in(x, w));
    }
    if x.len() > 0 {
        let y = x.drop_last();
        lemma_found_stands(patterns, y, p);
        if found(patterns, y, p) {
            let w = choose|w: Seq<u16>| #[trigger] patterns.contains((w, p)) && stands_in(y, w);
            let k = choose|k: int| #[trigger] stands_at(y, w, k);
            assert(x.subrange(k, k + w.len()) =~= y.subrange(k, k + w.len()));
            assert(stands_at(x, w, k));
            assert(patterns.contains((w, p)) && stands_in(x, w));
        }
    }
    if exists|w: Seq<u16>| #[trigger] patterns.contains((w, p)) && stands_in(x, w) {
        let w = choose|w: Seq<u16>| #[trigger] patterns.contains((w, p)) && stands_in(x, w);
        let k = choose|k: int| #[trigger] stands_at(x, w, k);
        if k + w.len() == x.len() {
            assert(patterns.contains((x.subrange(k, x.len() as int), p)));
        } else {
            let y = x.drop_last();
            assert(y.subrange(k, k + w.len()) =~= x.subrange(k, k + w.len()));
            assert(stands_at(y, w, k));
            assert(patterns.contains((w, p)) && stands_in(y, w));
        }
    }
}

impl DetectionNode {
    pub open spec fn edges_ordered(self) -> bool {
        forall|i: int, j: int|
            0 <= i < j < self.transitions@.len() ==> (#[trigger] self.transitions@[i]).symbol < (
            #[trigger] self.transitions@[j]).symbol
    }

    pub open spec fn outputs(self, p: int) -> bool {
        exists|k: int|
            0 <= k < self.profile_outputs@.len() && #[trigger] self.profile_outputs@[k] == p
    }

    fn empty() -> (r: DetectionNode)
        ensures
            r.transitions@.len() == 0,
            r.failure == 0,
            r.output_link is None,
            r.profile_outputs@.len() == 0,
    {
        DetectionNode {
            transitions: Vec::new(),
            failure: 0,
            output_link: None,
            profile_outputs: Vec::new(),
        }
    }

    /// The place of the edge with `symbol`, or the place where it would be.
    fn search(&self, symbol: u16) -> (r: Result<usize, usize>)
        requires
            self.edges_ordered(),
        ensures
            match r {
                Ok(i) => i < self.transitions@.len() && self.transitions@[i as int].symbol
                    == symbol,
                Err(i) => i <= self.transitions@.len() && (forall|k: int|
                    0 <= k < i ==> (#[trigger] self.transitions@[k]).symbol < symbol) && (forall|
                    k: int,
                |
                    i <= k < self.transitions@.len() ==> (#[trigger] self.transitions@[k]).symbol
                        > symbol),
            },
    {
        let mut low: usize = 0;
        let mut high: usize = self.transitions.len();
        while low < high
            invariant
                low <= high <= self.transitions@.len(),
                self.edges_ordered(),
                forall|k: int| 0 <= k < low ==> (#[trigger] self.transitions@[k]).symbol < symbol,
                forall|k: int|
                    high <= k < self.transitions@.len() ==> (#[trigger] self.transitions@[k]).symbol
                        > symbol,
            decreases high - low,
        {
            let mid: usize = low + (high - low) / 2;
            let here = self.transitions[mid].symbol;
            if here == symbol {
                return Ok(mid);
            }
            if here < symbol {
                low = mid + 1;
            } else {
                high = mid;
            }
        }
        Err(low)
    }
}

impl DetectionMatcher {
    pub closed spec fn words(self) -> Seq<Seq<u16>> {
        self.words@
    }

    /// The patterns that the automaton looks for, each with its profile.
    pub closed spec fn patterns(self) -> Set<(Seq<u16>, int)> {
        self.patterns@
    }

    /// How many profiles the automaton knows.
    pub closed spec fn profiles(self) -> int {
        self.profile_count as int
    }

    /// The edge `k` of state `n` leads to the word with one more symbol.
    spec fn edge_ok(self, n: int, k: int) -> bool {
        let t = self.nodes@[n].transitions@[k];
        n < t.target < self.nodes@.len() && self.words@[t.target as int] == self.words@[n].push(
            t.symbol,
        )
    }

    /// State `n` is reached by an edge.
    spec fn entered(self, n: int) -> bool {
        exists|m: int, k: int|
            0 <= m < n && 0 <= k < self.nodes@[m].transitions@.len()
                && #[trigger] self.nodes@[m].transitions@[k].target == n
    }

    /// The states are a tree of words, and the outputs are the patterns.
    pub closed spec fn tree(self) -> bool {
        &&& self.nodes@.len() == self.words@.len()
        &&& prefix_closed(self.words@)
        &&& forall|i: int, j: int|
            0 <= i < j < self.words@.len() ==> #[trigger] self.words@[i] != #[trigger] self.words@[j]
        &&& forall|n: int| 0 <= n < self.nodes@.len() ==> (#[trigger] self.nodes@[n]).edges_ordered()
        &&& forall|n: int, k: int|
            0 <= n < self.nodes@.len() && 0 <= k < self.nodes@[n].transitions@.len()
                ==> #[trigger] self.edge_ok(n, k)
        &&& forall|n: int| 0 < n < self.nodes@.len() ==> #[trigger] self.entered(n)
        &&& forall|n: int, p: int|
            0 <= n < self.nodes@.len() ==> #[trigger] self.nodes@[n].outputs(p)
                == self.patterns@.contains((self.words@[n], p))
        &&& forall|w: Seq<u16>, p: int| #[trigger]
            self.patterns@.contains((w, p)) ==> self.words@.contains(w) && w.len() > 0 && 0 <= p
                < self.profile_count
    }

    /// The failure and output links of state `n` are right.
    spec fn linked(self, n: int) -> bool {
        let node = self.nodes@[n];
        &&& node.failure < self.nodes@.len()
        &&& self.words@[node.failure as int] == longest_suffix(
            self.words@,
            self.words@[n].drop_first(),
        )
        &&& self.link_ok(n)
    }

    /// What the output link leads to is what ends in a proper suffix.
    spec fn link_ok(self, n: int) -> bool {
        let node = self.nodes@[n];
        &&& match node.output_link {
            Some(m) => m < self.nodes@.len() && self.words@[m as int].len() < self.words@[n].len(),
            None => true,
        }
        &&& forall|p: int| #[trigger]
            hits(self.patterns@, self.words@[n], p) == (node.outputs(p) || match node.output_link {
                Some(m) => hits(self.patterns@, self.words@[m as int], p),
                None => false,
            })
    }

    /// The profiles that have a pattern.
    spec fn owners(self) -> Set<int> {
        Set::new(|p: int| exists|w: Seq<u16>| #[trigger] self.patterns@.contains((w, p)))
    }

    /// The automaton is ready for scans.
    pub closed spec fn wf(self) -> bool {
        &&& self.tree()
        &&& self.link_ok(0)
        &&& forall|n: int| 0 < n < self.nodes@.len() ==> #[trigger] self.linked(n)
        &&& self.owners().finite()
        &&& self.owners().len() == self.profiles_with_hints
    }

    proof fn lemma_edge(self, n: int, c: u16)
        requires
            self.tree(),
            0 <= n < self.nodes@.len(),
        ensures
            self.words@.contains(self.words@[n].push(c)) ==> exists|k: int|
                0 <= k < self.nodes@[n].transitions@.len() && (
                #[trigger] self.nodes@[n].transitions@[k]).symbol == c,
    {
        let w = self.words@[n].push(c);
        if self.words@.contains(w) {
            let t = choose|t: int| 0 <= t < self.words@.len() && self.words@[t] == w;
            assert(t > 0);
            assert(self.entered(t));
            let (m, k) = choose|m: int, k: int|
                0 <= m < t && 0 <= k < self.nodes@[m].transitions@.len()
                    && #[trigger] self.nodes@[m].transitions@[k].target == t;
            assert(self.edge_ok(m, k));
            let symbol = self.nodes@[m].transitions@[k].symbol;
            assert(self.words@[m].push(symbol) == w);
            assert(self.words@[m].push(symbol).drop_last() =~= self.words@[m]);
            assert(w.drop_last() =~= self.words@[n]);
            assert(m == n);
            assert(w.last() == c && w.last() == symbol);
        }
    }

    /// The state behind `symbol`, where there is an edge for it.
    fn transition(&self, state: usize, symbol: u16) -> (r: Option<usize>)
        requires
            self.tree(),
            state < self.nodes@.len(),
        ensures
            match r {
                Some(t) => t < self.nodes@.len() && self.words@[t as int]
                    == self.words@[state as int].push(symbol),
                None => !self.words@.contains(self.words@[state as int].push(symbol)),
            },
    {
        proof {
            self.lemma_edge(state as int, symbol);
        }
        assert(self.nodes@[state as int].edges_ordered());
        let node = &self.nodes[state];
        match node.search(symbol) {
            Ok(i) => {
                assert(self.edge_ok(state as int, i as int));
                Some(node.transitions[i].target)
            },
            Err(_) => None,
        }
    }

    /// An automaton that looks for nothing.
    pub fn new(profile_count: usize) -> (r: DetectionMatcher)
        ensures
            r.tree(),
            r.bare(),
            r.counted(),
            r.profiles() == profile_count,
            r.hinted() == 0,
            r.patterns() == Set::<(Seq<u16>, int)>::empty(),
    {
        let mut nodes: Vec<DetectionNode> = Vec::new();
        nodes.push(DetectionNode::empty());
        let ghost root = seq![Seq::<u16>::empty()];
        let ghost none = Set::<(Seq<u16>, int)>::empty();
        let r = DetectionMatcher {
            nodes,
            profile_count,
            profiles_with_hints: 0,
            pattern_count: 0,
            words: Ghost(root),
            patterns: Ghost(none),
        };
        assert(r.words@[0] =~= Seq::<u16>::empty());
        assert forall|n: int, p: int| 0 <= n < r.nodes@.len() implies #[trigger] r.nodes@[n].outputs(
            p,
        ) == r.patterns@.contains((r.words@[n], p)) by {}
        assert(r.owners() =~= Set::<int>::empty());
        r
    }

    /// The state for the word of `state` with `symbol` behind it.
    fn ensure_transition(&mut self, state: usize, symbol: u16) -> (r: usize)
        requires
            old(self).tree(),
            state < old(self).nodes@.len(),
        ensures
            final(self).tree(),
            r < final(self).nodes@.len(),
            final(self).nodes@.len() >= old(self).nodes@.len(),
            final(self).words@[r as int] == old(self).words@[state as int].push(symbol),
            final(self).patterns@ == old(self).patterns@,
            final(self).profile_count == old(self).profile_count,
            final(self).profiles_with_hints == old(self).profiles_with_hints,
            final(self).pattern_count == old(self).pattern_count,
            old(self).bare() ==> final(self).bare(),
    {
        let ghost was = *self;
        assert(self.nodes@[state as int].edges_ordered());
        proof {
            self.lemma_edge(state as int, symbol);
        }
        match self.nodes[state].search(symbol) {
            Ok(i) => {
                assert(self.edge_ok(state as int, i as int));
                self.nodes[state].transitions[i].target
            },
            Err(i) => {
                let target = self.nodes.len();
                let ghost word = self.words@[state as int].push(symbol);
                let ghost edges = self.nodes@[state as int].transitions@;
                self.nodes.push(DetectionNode::empty());
                self.nodes[state].transitions.insert(i, DetectionTransition { symbol, target });
                self.words = Ghost(self.words@.push(word));
                proof {
                    let st = state as int;
                    let all = self.nodes@[st].transitions@;
                    assert(all == edges.insert(i as int, DetectionTransition { symbol, target }));
                    assert forall|a: int, b: int| 0 <= a < b < all.len() implies (
                    #[trigger] all[a]).symbol < (#[trigger] all[b]).symbol by {
                        let x = if a < i {
                            a
                        } else {
                            a - 1
                        };
                        let y = if b < i {
                            b
                        } else {
                            b - 1
                        };
                        if a != i {
                            assert(all[a] == edges[x]);
                        }
                        if b != i {
                            assert(all[b] == edges[y]);
                        }
                        if a != i && b != i {
                            assert(edges[x].symbol < edges[y].symbol);
                        }
                    }
                    assert(self.nodes@[st].edges_ordered());
                    assert forall|n: int| 0 <= n < self.nodes@.len() implies (
                    #[trigger] self.nodes@[n]).edges_ordered() by {
                        if n != st && n < was.nodes@.len() {
                            assert(self.nodes@[n] == was.nodes@[n]);
                        }
                    }
                    assert forall|n: int, k: int|
                        0 <= n < self.nodes@.len() && 0 <= k < self.nodes@[n].transitions@.len()
                        implies #[trigger] self.edge_ok(n, k) by {
                        if n == st {
                            if k < i {
                                assert(all[k] == edges[k]);
                                assert(was.edge_ok(n, k));
                            } else if k > i {
                                assert(all[k] == edges[k - 1]);
                                assert(was.edge_ok(n, k - 1));
                            }
                        } else if n < was.nodes@.len() {
                            assert(self.nodes@[n] == was.nodes@[n]);
                            assert(was.edge_ok(n, k));
                        }
                    }
                    assert forall|n: int| 0 < n < self.nodes@.len() implies #[trigger] self.entered(
                        n,
                    ) by {
                        if n == target {
                            assert(self.nodes@[st].transitions@[i as int].target == n);
                        } else {
                            assert(was.entered(n));
                            let (m, k) = choose|m: int, k: int|
                                0 <= m < n && 0 <= k < was.nodes@[m].transitions@.len()
                                    && #[trigger] was.nodes@[m].transitions@[k].target == n;
                            if m == st {
                                let j = if k < i {
                                    k
                                } else {
                                    k + 1
                                };
                                assert(all[j] == edges[k]);
                                assert(self.nodes@[m].transitions@[j].target == n);
                            } else {
                                assert(self.nodes@[m].transitions@[k].target == n);
                            }
                        }
                    }
                    assert(!was.words@.contains(word)) by {
                        if was.words@.contains(word) {
                            let k = choose|k: int|
                                0 <= k < edges.len() && (#[trigger] edges[k]).symbol == symbol;
                            assert(false);
                        }
                    }
                    assert forall|a: int, b: int| 0 <= a < b < self.words@.len() implies
                        #[trigger] self.words@[a] != #[trigger] self.words@[b] by {
                        if b == target {
                            assert(was.words@[a] == self.words@[a]);
                        } else {
                            assert(was.words@[a] != was.words@[b]);
                        }
                    }
                    assert(prefix_closed(self.words@)) by {
                        assert forall|n: int| 0 < n < self.words@.len() implies (
                        #[trigger] self.words@[n]).len() > 0 && self.words@.contains(
                            self.words@[n].drop_last(),
                        ) by {
                            if n == target {
                                assert(word.drop_last() =~= was.words@[st]);
                                assert(self.words@[st] == was.words@[st]);
                            } else {
                                let k = choose|k: int|
                                    0 <= k < was.words@.len() && was.words@[k]
                                        == was.words@[n].drop_last();
                                assert(self.words@[k] == was.words@[n].drop_last());
                            }
                        }
                    }
                    assert forall|n: int, p: int| 0 <= n < self.nodes@.len() implies
                        #[trigger] self.nodes@[n].outputs(p) == self.patterns@.contains(
                        (self.words@[n], p),
                    ) by {
                        if n < was.nodes@.len() {
                            assert(was.nodes@[n].outputs(p) == was.patterns@.contains(
                                (was.words@[n], p),
                            ));
                            assert(self.nodes@[n].profile_outputs == was.nodes@[n].profile_outputs);
                            assert(self.nodes@[n].outputs(p) == was.nodes@[n].outputs(p));
                        } else if self.patterns@.contains((word, p)) {
                            assert(was.words@.contains(word));
                        }
                    }
                    assert forall|w: Seq<u16>, p: int| #[trigger]
                        self.patterns@.contains((w, p)) implies self.words@.contains(w) && w.len()
                        > 0 && 0 <= p < self.profile_count by {
                        assert(was.words@.contains(w));
                        let k = choose|k: int| 0 <= k < was.words@.len() && was.words@[k] == w;
                        assert(self.words@[k] == w);
                    }
                }
                target
            },
        }
    }
}

/// The hints as bytes.
pub open spec fn hint_bytes(hints: Seq<String>) -> Seq<Seq<u8>> {
    hints.map_values(|h: String| encode_utf8(h@))
}

/// Patterns with those of the hints of profile `p` added.
pub open spec fn with_hints(
    patterns: Set<(Seq<u16>, int)>,
    hints: Seq<Seq<u8>>,
    p: int,
) -> Set<(Seq<u16>, int)>
    decreases hints.len(),
{
    if hints.len() == 0 {
        patterns
    } else {
        let before = with_hints(patterns, hints.drop_last(), p);
        if hints.last().len() == 0 {
            before
        } else {
            before.insert((symbols(hints.last()), p))
        }
    }
}

pub proof fn lemma_with_hints(patterns: Set<(Seq<u16>, int)>, hints: Seq<Seq<u8>>, p: int)
    ensures
        forall|w: Seq<u16>, q: int| #[trigger]
            with_hints(patterns, hints, p).contains((w, q)) == (patterns.contains((w, q)) || (q == p
                && exists|k: int|
                0 <= k < hints.len() && hints[k].len() > 0 && symbols(#[trigger] hints[k]) == w)),
    decreases hints.len(),
{
    if hints.len() > 0 {
        let shorter = hints.drop_last();
        lemma_with_hints(patterns, shorter, p);
        assert forall|w: Seq<u16>, q: int| #[trigger]
            with_hints(patterns, hints, p).contains((w, q)) == (patterns.contains((w, q)) || (q == p
                && exists|k: int|
                0 <= k < hints.len() && hints[k].len() > 0 && symbols(#[trigger] hints[k])
                    == w)) by {
            let now = exists|k: int|
                0 <= k < hints.len() && hints[k].len() > 0 && symbols(#[trigger] hints[k]) == w;
            let before = exists|k: int|
                0 <= k < shorter.len() && shorter[k].len() > 0 && symbols(#[trigger] shorter[k])
                    == w;
            assert(with_hints(patterns, shorter, p).contains((w, q)) == (patterns.contains((w, q))
                || (q == p && before)));
            if before {
                let k = choose|k: int|
                    0 <= k < shorter.len() && shorter[k].len() > 0 && symbols(
                        #[trigger] shorter[k],
                    ) == w;
                assert(hints[k] == shorter[k]);
            }
            if now {
                let k = choose|k: int|
                    0 <= k < hints.len() && hints[k].len() > 0 && symbols(#[trigger] hints[k]) == w;
                if k < shorter.len() {
                    assert(hints[k] == shorter[k]);
                }
            }
            if hints.last().len() > 0 {
                assert(hints[hints.len() - 1] == hints.last());
            }
        }
    }
}

/// The longest length among the words.
spec fn longest(words: Seq<Seq<u16>>) -> int
    decreases words.len(),
{
    if words.len() == 0 {
        0
    } else {
        let rest = longest(words.drop_last());
        if words.last().len() > rest {
            words.last().len() as int
        } else {
            rest
        }
    }
}

proof fn lemma_longest(words: Seq<Seq<u16>>, n: int)
    requires
        0 <= n < words.len(),
    ensures
        words[n].len() <= longest(words),
    decreases words.len(),
{
    if n < words.len() - 1 {
        lemma_longest(words.drop_last(), n);
    }
}

/// Where no word has length `d`, no word is longer.
proof fn lemma_no_longer_word(words: Seq<Seq<u16>>, d: int, n: int)
    requires
        prefix_closed(words),
        forall|m: int| 0 <= m < words.len() ==> (#[trigger] words[m]).len() != d,
        0 <= n < words.len(),
        d >= 0,
    ensures
        words[n].len() < d,
    decreases words[n].len(),
{
    if words[n].len() > d {
        assert(n > 0);
        let shorter = words[n].drop_last();
        let m = choose|m: int| 0 <= m < words.len() && words[m] == shorter;
        lemma_no_longer_word(words, d, m);
    }
}

impl DetectionMatcher {
    /// The count of profiles with hints is right.
    pub closed spec fn counted(self) -> bool {
        &&& self.owners().finite()
        &&& self.owners().len() == self.profiles_with_hints
        &&& self.patterns@.finite()
        &&& self.pattern_count == if self.patterns@.len() < usize::MAX {
            self.patterns@.len() as int
        } else {
            usize::MAX as int
        }
    }

    /// Adds the pattern of one hint; tells whether it is new.
    fn insert_pattern(&mut self, hint: &[u8], profile_index: usize) -> (r: bool)
        requires
            old(self).tree(),
            profile_index < old(self).profile_count,
            old(self).patterns@.finite(),
            hint@.len() > 0,
            old(self).pattern_count == (if old(self).patterns@.len() < usize::MAX {
                old(self).patterns@.len() as int
            } else {
                usize::MAX as int
            }),
        ensures
            final(self).tree(),
            final(self).patterns@ == old(self).patterns@.insert(
                (symbols(hint@), profile_index as int),
            ),
            r == !old(self).patterns@.contains((symbols(hint@), profile_index as int)),
            old(self).bare() ==> final(self).bare(),
            final(self).profile_count == old(self).profile_count,
            final(self).profiles_with_hints == old(self).profiles_with_hints,
            final(self).patterns@.finite(),
            final(self).pattern_count == (if final(self).patterns@.len() < usize::MAX {
                final(self).patterns@.len() as int
            } else {
                usize::MAX as int
            }),
    {
        let ghost first = *self;
        let mut state: usize = 0;
        let mut i: usize = 0;
        assert(hint@.take(0) =~= Seq::<u8>::empty());
        while i < hint.len()
            invariant
                i <= hint@.len(),
                first == *old(self),
                self.tree(),
                state < self.nodes@.len(),
                self.words@[state as int] == open_symbols(hint@.take(i as int)),
                self.patterns@ == first.patterns@,
                self.profile_count == first.profile_count,
                self.profiles_with_hints == first.profiles_with_hints,
                self.pattern_count == first.pattern_count,
                first.bare() ==> self.bare(),
            decreases hint@.len() - i,
        {
            let byte = hint[i];
            let bounded = if i == 0 {
                is_detection_word_byte(byte)
            } else {
                is_detection_word_byte(hint[i - 1]) != is_detection_word_byte(byte)
            };
            proof {
                let longer = hint@.take(i + 1);
                assert(longer.drop_last() =~= hint@.take(i as int));
                assert(unit(longer, i as int) =~= unit(hint@, i as int));
            }
            let ghost before = self.words@[state as int];
            if bounded {
                state = self.ensure_transition(state, DETECTION_BOUNDARY_SYMBOL);
            }
            state = self.ensure_transition(state, to_lower(byte) as u16);
            assert(self.words@[state as int] =~= before + unit(hint@, i as int));
            i = i + 1;
        }
        assert(hint@.take(i as int) =~= hint@);
        let ghost before = self.words@[state as int];
        if is_detection_word_byte(hint[hint.len() - 1]) {
            state = self.ensure_transition(state, DETECTION_BOUNDARY_SYMBOL);
        }
        assert(self.words@[state as int] =~= before + closing(hint@));
        let ghost word = symbols(hint@);
        let ghost was = *self;
        let mut known: bool = false;
        let mut k: usize = 0;
        while k < self.nodes[state].profile_outputs.len()
            invariant
                *self == was,
                state < was.nodes@.len(),
                k <= was.nodes@[state as int].profile_outputs@.len(),
                known == exists|j: int|
                    0 <= j < k && #[trigger] was.nodes@[state as int].profile_outputs@[j]
                        == profile_index,
            decreases was.nodes@[state as int].profile_outputs@.len() - k,
        {
            if self.nodes[state].profile_outputs[k] == profile_index {
                assert(was.nodes@[state as int].profile_outputs@[k as int] == profile_index);
                known = true;
            }
            k = k + 1;
        }
        assert(known == was.nodes@[state as int].outputs(profile_index as int));
        let ghost pattern = (word, profile_index as int);
        if known {
            assert(self.patterns@.insert(pattern) =~= self.patterns@);
            return false;
        }
        self.nodes[state].profile_outputs.push(profile_index);
        if self.pattern_count < usize::MAX {
            self.pattern_count = self.pattern_count + 1;
        }
        self.patterns = Ghost(self.patterns@.insert(pattern));
        proof {
            let st = state as int;
            assert forall|n: int| 0 <= n < self.nodes@.len() implies (
            #[trigger] self.nodes@[n]).edges_ordered() by {
                assert(was.nodes@[n].edges_ordered());
                assert(self.nodes@[n].transitions == was.nodes@[n].transitions);
            }
            assert forall|n: int, k: int|
                0 <= n < self.nodes@.len() && 0 <= k < self.nodes@[n].transitions@.len() implies
                #[trigger] self.edge_ok(n, k) by {
                assert(self.nodes@[n].transitions == was.nodes@[n].transitions);
                assert(was.edge_ok(n, k));
            }
            assert forall|n: int| 0 < n < self.nodes@.len() implies #[trigger] self.entered(n) by {
                assert(was.entered(n));
                let (m, k) = choose|m: int, k: int|
                    0 <= m < n && 0 <= k < was.nodes@[m].transitions@.len()
                        && #[trigger] was.nodes@[m].transitions@[k].target == n;
                assert(self.nodes@[m].transitions == was.nodes@[m].transitions);
                assert(self.nodes@[m].transitions@[k].target == n);
            }
            assert forall|n: int, p: int| 0 <= n < self.nodes@.len() implies
                #[trigger] self.nodes@[n].outputs(p) == self.patterns@.contains(
                (self.words@[n], p),
            ) by {
                assert(was.nodes@[n].outputs(p) == was.patterns@.contains((was.words@[n], p)));
                if n == st {
                    let now = self.nodes@[st].profile_outputs@;
                    let then = was.nodes@[st].profile_outputs@;
                    assert(now == then.push(profile_index));
                    if was.nodes@[n].outputs(p) {
                        let j = choose|j: int| 0 <= j < then.len() && #[trigger] then[j] == p;
                        assert(now[j] == p);
                    }
                    if p == profile_index {
                        assert(now[then.len() as int] == p);
                    }
                    if self.nodes@[n].outputs(p) {
                        let j = choose|j: int| 0 <= j < now.len() && #[trigger] now[j] == p;
                        if j < then.len() {
                            assert(then[j] == p);
                        }
                    }
                } else {
                    assert(self.nodes@[n] == was.nodes@[n]);
                    if self.words@[n] == word {
                        assert(false);
                    }
                }
            }
            assert forall|w: Seq<u16>, p: int| #[trigger]
                self.patterns@.contains((w, p)) implies self.words@.contains(w) && w.len() > 0
                && 0 <= p < self.profile_count by {
                if (w, p) != pattern {
                    assert(was.patterns@.contains((w, p)));
                } else {
                    assert(self.words@[st] == w);
                    lemma_symbols_not_empty(hint@);
                }
            }
        }
        true
    }

    /// Adds the patterns of the hints of a profile that has none yet.
    pub fn add_hints(&mut self, hints: &Vec<String>, profile_index: usize)
        requires
            old(self).tree(),
            old(self).counted(),
            profile_index < old(self).profiles(),
            forall|w: Seq<u16>|
                !#[trigger] old(self).patterns().contains((w, profile_index as int)),
            old(self).hinted() < usize::MAX,
        ensures
            final(self).tree(),
            final(self).counted(),
            final(self).profiles() == old(self).profiles(),
            final(self).patterns() == with_hints(
                old(self).patterns(),
                hint_bytes(hints@),
                profile_index as int,
            ),
            final(self).hinted() <= old(self).hinted() + 1,
            old(self).bare() ==> final(self).bare(),
    {
        let ghost first = *self;
        let ghost all = hint_bytes(hints@);
        let ghost p = profile_index as int;
        let mut added: bool = false;
        let mut i: usize = 0;
        assert(all.take(0) =~= Seq::<Seq<u8>>::empty());
        while i < hints.len()
            invariant
                i <= hints@.len(),
                all == hint_bytes(hints@),
                p == profile_index,
                first == *old(self),
                self.tree(),
                profile_index < self.profile_count,
                self.profile_count == first.profile_count,
                self.profiles_with_hints == first.profiles_with_hints,
                self.patterns@ == with_hints(first.patterns@, all.take(i as int), p),
                self.patterns@.finite(),
                self.pattern_count == (if self.patterns@.len() < usize::MAX {
                    self.patterns@.len() as int
                } else {
                    usize::MAX as int
                }),
                first.bare() ==> self.bare(),
                added ==> exists|w: Seq<u16>| #[trigger] self.patterns@.contains((w, p)),
                !added ==> self.patterns@ == first.patterns@,
            decreases hints@.len() - i,
        {
            assert(all.take(i + 1).drop_last() =~= all.take(i as int));
            assert(all[i as int] == encode_utf8(hints@[i as int]@));
            let hint = hints[i].as_str().as_bytes();
            if hint.len() > 0 {
                if self.insert_pattern(hint, profile_index) {
                    added = true;
                } else {
                    assert(self.patterns@ =~= with_hints(first.patterns@, all.take(i as int), p));
                }
                assert(self.patterns@.contains((symbols(hint@), p)));
            }
            i = i + 1;
        }
        assert(all.take(i as int) =~= all);
        proof {
            lemma_with_hints(first.patterns@, all, p);
            if first.owners().contains(p) {
                let w = choose|w: Seq<u16>| #[trigger] first.patterns@.contains((w, p));
                assert(!first.patterns().contains((w, p)));
                assert(false);
            }
            assert forall|q: int| #[trigger] self.owners().contains(q) == (first.owners().contains(
                q,
            ) || (added && q == p)) by {
                if first.owners().contains(q) {
                    let w = choose|w: Seq<u16>| #[trigger] first.patterns@.contains((w, q));
                    assert(self.patterns@.contains((w, q)));
                }
                if self.owners().contains(q) && q != p {
                    let w = choose|w: Seq<u16>| #[trigger] self.patterns@.contains((w, q));
                    assert(first.patterns@.contains((w, q)));
                }
            }
            if added {
                assert(self.owners() =~= first.owners().insert(p));
            } else {
                assert(self.owners() =~= first.owners());
            }
        }
        if added {
            let ghost was = *self;
            self.profiles_with_hints = self.profiles_with_hints + 1;
            proof {
                self.lemma_same_tree(was);
            }
            assert(self.owners() =~= first.owners().insert(p));
        }
    }

    /// How many profiles have hints.
    pub closed spec fn hinted(self) -> int {
        self.profiles_with_hints as int
    }

    /// The failure links are right for the words up to the length of `d`.
    spec fn linked_to(self, d: int) -> bool {
        &&& self.link_ok(0)
        &&& forall|n: int|
            0 < n < self.nodes@.len() && self.words@[n].len() <= d ==> #[trigger] self.linked(n)
    }

    /// The state behind `symbol` after `state`; also how many failure links
    /// that takes.
    fn follow(&self, state: usize, symbol: u16, Ghost(d): Ghost<int>) -> (r: (usize, usize))
        requires
            self.tree(),
            state < self.nodes@.len(),
            self.words@[state as int].len() <= d,
            self.linked_to(d),
        ensures
            r.0 < self.nodes@.len(),
            self.words@[r.0 as int] == longest_suffix(
                self.words@,
                self.words@[state as int].push(symbol),
            ),
            r.1 + self.words@[r.0 as int].len() <= self.words@[state as int].len() + 1,
    {
        let ghost goal = longest_suffix(self.words@, self.words@[state as int].push(symbol));
        let mut at: usize = state;
        let mut steps: usize = 0;
        proof {
            self.lemma_word_len(state as int);
        }
        loop
            invariant
                self.tree(),
                at < self.nodes@.len(),
                self.words@[at as int].len() <= d,
                self.linked_to(d),
                goal == longest_suffix(self.words@, self.words@[at as int].push(symbol)),
                steps + self.words@[at as int].len() <= self.words@[state as int].len(),
                self.words@[state as int].len() < self.nodes@.len(),
                goal == longest_suffix(self.words@, self.words@[state as int].push(symbol)),
            decreases self.words@[at as int].len(),
        {
            let ghost w = self.words@[at as int];
            if let Some(target) = self.transition(at, symbol) {
                return (target, steps);
            }
            if at == 0 {
                assert(w.push(symbol).drop_first() =~= Seq::<u16>::empty());
                assert(longest_suffix(self.words@, Seq::<u16>::empty()) == Seq::<u16>::empty());
                return (0, steps);
            }
            assert(self.linked(at as int));
            proof {
                assert(w.push(symbol).drop_first() =~= w.drop_first().push(symbol));
                lemma_suffix_step(self.words@, w.drop_first(), symbol);
                lemma_longest_suffix(self.words@, w.drop_first());
            }
            let len = self.nodes.len();
            at = self.nodes[at].failure;
            steps = steps + 1;
        }
    }

    /// A word is shorter than there are states.
    proof fn lemma_word_len(self, n: int)
        requires
            self.tree(),
            0 <= n < self.nodes@.len(),
        ensures
            self.words@[n].len() <= n,
        decreases n,
    {
        if n > 0 {
            assert(self.entered(n));
            let (m, k) = choose|m: int, k: int|
                0 <= m < n && 0 <= k < self.nodes@[m].transitions@.len()
                    && #[trigger] self.nodes@[m].transitions@[k].target == n;
            assert(self.edge_ok(m, k));
            self.lemma_word_len(m);
        }
    }

    /// Sets the links of the state that edge `k` of `state` leads to.
    fn link_child(&mut self, state: usize, k: usize) -> (r: usize)
        requires
            old(self).tree(),
            state < old(self).nodes@.len(),
            k < old(self).nodes@[state as int].transitions@.len(),
            old(self).linked_to(old(self).words@[state as int].len() as int),
        ensures
            final(self).tree(),
            final(self).same_tree(*old(self)),
            final(self).same_counts(*old(self)),
            r == old(self).nodes@[state as int].transitions@[k as int].target,
            0 < r < final(self).nodes@.len(),
            final(self).linked(r as int),
            forall|n: int|
                0 <= n < final(self).nodes@.len() && n != r ==> #[trigger] final(self).nodes@[n]
                    == old(self).nodes@[n],
    {
        let ghost was = *self;
        let ghost d = self.words@[state as int].len() as int;
        let ghost w = self.words@[state as int];
        assert(self.edge_ok(state as int, k as int));
        let edge = self.nodes[state].transitions[k];
        let target = edge.target;
        let ghost word = self.words@[target as int];
        let failure: usize = if state == 0 {
            0
        } else {
            assert(self.linked(state as int));
            proof {
                lemma_longest_suffix(self.words@, w.drop_first());
            }
            self.follow(self.nodes[state].failure, edge.symbol, Ghost(d)).0
        };
        proof {
            if state == 0 {
                assert(word.drop_first() =~= Seq::<u16>::empty());
            } else {
                assert(word.drop_first() =~= w.drop_first().push(edge.symbol));
                lemma_suffix_step(self.words@, w.drop_first(), edge.symbol);
            }
            lemma_longest_suffix(self.words@, word.drop_first());
            if failure != 0 {
                assert(self.words@[failure as int].len() <= d);
                assert(self.linked(failure as int));
            }
        }
        let output_link: Option<usize> = if self.nodes[failure].profile_outputs.len() > 0 {
            Some(failure)
        } else {
            self.nodes[failure].output_link
        };
        self.nodes[target].failure = failure;
        self.nodes[target].output_link = output_link;
        proof {
            self.lemma_same_tree(was);
            assert forall|p: int| #[trigger]
                hits(self.patterns@, word, p) == (self.nodes@[target as int].outputs(p)
                    || match output_link {
                    Some(m) => hits(self.patterns@, self.words@[m as int], p),
                    None => false,
                }) by {
                lemma_hits_state(self.words@, self.patterns@, word.drop_first(), p);
                assert(was.nodes@[target as int].outputs(p) == was.patterns@.contains((word, p)));
                assert(self.nodes@[target as int].profile_outputs
                    == was.nodes@[target as int].profile_outputs);
                assert(self.nodes@[target as int].outputs(p) == was.nodes@[target as int].outputs(
                    p,
                ));
                assert(was.link_ok(failure as int));
                let f = self.words@[failure as int];
                assert(hits(self.patterns@, word, p) == (self.nodes@[target as int].outputs(p)
                    || hits(self.patterns@, f, p)));
                if was.nodes@[failure as int].profile_outputs@.len() == 0 {
                    assert(!was.nodes@[failure as int].outputs(p));
                }
            }
        }
        target
    }

    /// The same words, edges, outputs and patterns.
    spec fn same_tree(self, other: DetectionMatcher) -> bool {
        &&& self.words@ == other.words@
        &&& self.patterns@ == other.patterns@
        &&& self.profile_count == other.profile_count
        &&& self.nodes@.len() == other.nodes@.len()
        &&& forall|n: int|
            0 <= n < self.nodes@.len() ==> (#[trigger] self.nodes@[n]).transitions
                == other.nodes@[n].transitions && self.nodes@[n].profile_outputs
                == other.nodes@[n].profile_outputs
    }

    spec fn same_counts(self, other: DetectionMatcher) -> bool {
        self.profiles_with_hints == other.profiles_with_hints && self.pattern_count
            == other.pattern_count
    }

    proof fn lemma_same_tree(self, other: DetectionMatcher)
        requires
            self.same_tree(other),
            other.tree(),
        ensures
            self.tree(),
    {
        assert forall|n: int| 0 <= n < self.nodes@.len() implies (
        #[trigger] self.nodes@[n]).edges_ordered() by {
            assert(other.nodes@[n].edges_ordered());
        }
        assert forall|n: int, k: int|
            0 <= n < self.nodes@.len() && 0 <= k < self.nodes@[n].transitions@.len() implies
            #[trigger] self.edge_ok(n, k) by {
            assert(self.nodes@[n].transitions == other.nodes@[n].transitions);
            assert(other.edge_ok(n, k));
        }
        assert forall|n: int| 0 < n < self.nodes@.len() implies #[trigger] self.entered(n) by {
            assert(other.entered(n));
            let (m, k) = choose|m: int, k: int|
                0 <= m < n && 0 <= k < other.nodes@[m].transitions@.len()
                    && #[trigger] other.nodes@[m].transitions@[k].target == n;
            assert(self.nodes@[m].transitions == other.nodes@[m].transitions);
            assert(self.nodes@[m].transitions@[k].target == n);
        }
        assert forall|n: int, p: int| 0 <= n < self.nodes@.len() implies
            #[trigger] self.nodes@[n].outputs(p) == self.patterns@.contains((self.words@[n], p)) by {
            assert(self.nodes@[n].profile_outputs == other.nodes@[n].profile_outputs);
            assert(other.nodes@[n].outputs(p) == other.patterns@.contains((other.words@[n], p)));
            assert(self.nodes@[n].outputs(p) == other.nodes@[n].outputs(p));
        }
    }

    /// What holds of a state's links holds where only other states change.
    proof fn lemma_links_stay(self, other: DetectionMatcher, n: int)
        requires
            self.same_tree(other),
            0 <= n < self.nodes@.len(),
            self.nodes@[n] == other.nodes@[n],
        ensures
            other.linked(n) ==> self.linked(n),
            other.link_ok(n) ==> self.link_ok(n),
    {
        if other.link_ok(n) {
            assert forall|p: int| #[trigger]
                hits(self.patterns@, self.words@[n], p) == (self.nodes@[n].outputs(p)
                    || match self.nodes@[n].output_link {
                    Some(m) => hits(self.patterns@, self.words@[m as int], p),
                    None => false,
                }) by {
                assert(hits(other.patterns@, other.words@[n], p) == hits(
                    self.patterns@,
                    self.words@[n],
                    p,
                ));
            }
        }
    }

    /// `level` is the list of the states whose words have length `d`.
    spec fn is_level(self, level: Seq<usize>, d: int) -> bool {
        &&& forall|j: int|
            0 <= j < level.len() ==> (#[trigger] level[j]) < self.nodes@.len()
                && self.words@[level[j] as int].len() == d
        &&& forall|n: int|
            0 <= n < self.words@.len() && (#[trigger] self.words@[n]).len() == d ==> level.contains(
                n as usize,
            )
    }

    /// The listed states have words of length `d`.
    spec fn within_level(self, level: Seq<usize>, d: int) -> bool {
        forall|j: int|
            0 <= j < level.len() ==> (#[trigger] level[j]) < self.nodes@.len()
                && self.words@[level[j] as int].len() == d
    }

    /// The states behind the first `i` states of `level` are done.
    spec fn level_done(self, level: Seq<usize>, i: int, next: Seq<usize>) -> bool {
        forall|j: int, k: int|
            0 <= j < i && 0 <= k < self.nodes@[level[j] as int].transitions@.len()
                ==> #[trigger] self.child_done(level[j] as int, k, next)
    }

    /// Links the states behind `state` and appends them to `next`.
    fn link_children(
        &mut self,
        state: usize,
        next: &mut Vec<usize>,
        Ghost(level): Ghost<Seq<usize>>,
        Ghost(i): Ghost<int>,
    )
        requires
            old(self).tree(),
            state < old(self).nodes@.len(),
            0 <= i < level.len(),
            state == level[i],
            old(self).within_level(level, old(self).words@[state as int].len() as int),
            old(self).within_level(old(next)@, old(self).words@[state as int].len() as int + 1),
            old(self).linked_to(old(self).words@[state as int].len() as int),
            old(self).level_done(level, i, old(next)@),
        ensures
            final(self).tree(),
            final(self).same_tree(*old(self)),
            final(self).same_counts(*old(self)),
            final(self).within_level(final(next)@, old(self).words@[state as int].len() as int + 1),
            final(self).linked_to(old(self).words@[state as int].len() as int),
            final(self).level_done(level, i + 1, final(next)@),
    {
        let ghost first = *self;
        let ghost d = self.words@[state as int].len() as int;
        let mut k: usize = 0;
        while k < self.nodes[state].transitions.len()
            invariant
                0 <= i < level.len(),
                state == level[i],
                first == *old(self),
                first.tree(),
                state < self.nodes@.len(),
                k <= self.nodes@[state as int].transitions@.len(),
                self.words@[state as int].len() == d,
                self.tree(),
                self.same_tree(first),
                self.same_counts(first),
                self.linked_to(d),
                self.within_level(level, d),
                self.within_level(next@, d + 1),
                self.level_done(level, i, next@),
                forall|j: int| 0 <= j < k ==> #[trigger] self.child_done(state as int, j, next@),
            decreases self.nodes@[state as int].transitions@.len() - k,
        {
            let ghost was = *self;
            let ghost before = next@;
            let child = self.link_child(state, k);
            next.push(child);
            proof {
                assert(was.edge_ok(state as int, k as int));
                self.lemma_same_tree_chain(was, first);
                assert(self.words@[child as int].len() == d + 1);
                self.lemma_links_stay(was, 0);
                assert forall|n: int|
                    0 < n < self.nodes@.len() && self.words@[n].len() <= d implies
                    #[trigger] self.linked(n) by {
                    assert(n != child);
                    assert(was.linked(n));
                    self.lemma_links_stay(was, n);
                }
                assert(next@[before.len() as int] == child);
                assert(self.nodes@[state as int].transitions
                    == was.nodes@[state as int].transitions);
                assert(self.child_done(state as int, k as int, next@));
                assert forall|j: int| 0 <= j < k implies #[trigger] self.child_done(
                    state as int,
                    j,
                    next@,
                ) by {
                    assert(was.child_done(state as int, j, before));
                    self.lemma_child_stays(was, state as int, j, before, child);
                }
                assert forall|j: int, e: int|
                    0 <= j < i && 0 <= e < self.nodes@[level[j] as int].transitions@.len() implies
                    #[trigger] self.child_done(level[j] as int, e, next@) by {
                    assert(level[j] < self.nodes@.len());
                    assert(self.nodes@[level[j] as int].transitions
                        == was.nodes@[level[j] as int].transitions);
                    assert(was.child_done(level[j] as int, e, before));
                    self.lemma_child_stays(was, level[j] as int, e, before, child);
                }
            }
            k = k + 1;
        }
        assert forall|j: int, e: int|
            0 <= j < i + 1 && 0 <= e < self.nodes@[level[j] as int].transitions@.len() implies
            #[trigger] self.child_done(level[j] as int, e, next@) by {
            if j < i {
                assert(self.level_done(level, i, next@));
            } else {
                assert(self.child_done(state as int, e, next@));
            }
        }
    }

    proof fn lemma_same_tree_chain(self, was: DetectionMatcher, first: DetectionMatcher)
        requires
            self.same_tree(was),
            was.same_tree(first),
        ensures
            self.same_tree(first),
    {
        assert forall|n: int| 0 <= n < self.nodes@.len() implies (
        #[trigger] self.nodes@[n]).transitions == first.nodes@[n].transitions
            && self.nodes@[n].profile_outputs == first.nodes@[n].profile_outputs by {
            assert(was.nodes@[n].transitions == first.nodes@[n].transitions);
        }
    }

    /// Links the states one symbol behind those of `level`, and returns them.
    fn link_level(&mut self, level: &Vec<usize>, Ghost(d): Ghost<int>) -> (next: Vec<usize>)
        requires
            old(self).tree(),
            d >= 0,
            old(self).is_level(level@, d),
            old(self).linked_to(d),
        ensures
            final(self).tree(),
            final(self).same_tree(*old(self)),
            final(self).same_counts(*old(self)),
            final(self).is_level(next@, d + 1),
            final(self).linked_to(d + 1),
    {
        let ghost first = *self;
        let count = self.nodes.len();
        let mut next: Vec<usize> = Vec::new();
        let mut i: usize = 0;
        while i < level.len()
            invariant
                i <= level@.len(),
                first == *old(self),
                first.is_level(level@, d),
                self.tree(),
                self.same_tree(first),
                self.same_counts(first),
                self.linked_to(d),
                self.within_level(level@, d),
                self.within_level(next@, d + 1),
                self.level_done(level@, i as int, next@),
            decreases level@.len() - i,
        {
            let ghost was = *self;
            assert(self.words@[level@[i as int] as int].len() == d);
            self.link_children(level[i], &mut next, Ghost(level@), Ghost(i as int));
            proof {
                self.lemma_same_tree_chain(was, first);
            }
            i = i + 1;
        }
        proof {
            assert forall|n: int|
                0 < n < self.nodes@.len() && self.words@[n].len() <= d + 1 implies
                #[trigger] self.linked(n) && (self.words@[n].len() == d + 1 ==> next@.contains(
                n as usize,
            )) by {
                if self.words@[n].len() <= d {
                    assert(self.linked(n));
                } else {
                    assert(self.entered(n));
                    let (m, e) = choose|m: int, e: int|
                        0 <= m < n && 0 <= e < self.nodes@[m].transitions@.len()
                            && #[trigger] self.nodes@[m].transitions@[e].target == n;
                    assert(self.edge_ok(m, e));
                    assert(first.words@[m].len() == d);
                    assert(level@.contains(m as usize));
                    let j = choose|j: int| 0 <= j < level@.len() && level@[j] == m as usize;
                    assert(m <= usize::MAX);
                    assert(self.child_done(level@[j] as int, e, next@));
                }
            }
            assert forall|n: int|
                0 <= n < self.words@.len() && (#[trigger] self.words@[n]).len() == d + 1 implies
                next@.contains(n as usize) by {
                assert(n > 0);
                assert(self.linked(n) && next@.contains(n as usize));
            }
        }
        next
    }

    /// Sets all failure and output links, from short words to long ones.
    pub fn build_failure_links(&mut self)
        requires
            old(self).tree(),
            old(self).counted(),
            old(self).bare(),
        ensures
            final(self).wf(),
            final(self).counted(),
            final(self).profiles() == old(self).profiles(),
            final(self).patterns() == old(self).patterns(),
    {
        let ghost first = *self;
        let count = self.nodes.len();
        let mut level: Vec<usize> = Vec::new();
        level.push(0);
        let ghost mut d: int = 0;
        proof {
            assert forall|p: int| #[trigger]
                hits(self.patterns@, self.words@[0], p) == self.nodes@[0].outputs(p) by {
                assert(self.nodes@[0].outputs(p) == self.patterns@.contains((self.words@[0], p)));
            }
            assert(self.link_ok(0));
            assert(level@[0] == 0);
            assert forall|n: int| 0 <= n < self.words@.len() && (#[trigger] self.words@[n]).len()
                == 0 implies level@.contains(n as usize) by {
                assert(self.words@[n] =~= self.words@[0]);
                assert(n == 0);
            }
        }
        while level.len() > 0
            invariant
                self.tree(),
                self.same_tree(first),
                self.same_counts(first),
                first == *old(self),
                self.linked_to(d),
                d >= 0,
                self.is_level(level@, d),
            decreases longest(self.words@) + 1 - d,
        {
            proof {
                assert(self.words@[level@[0] as int].len() == d);
                lemma_longest(self.words@, level@[0] as int);
            }
            let ghost was = *self;
            level = self.link_level(&level, Ghost(d));
            proof {
                self.lemma_same_tree_chain(was, first);
                d = d + 1;
            }
        }
        proof {
            assert forall|n: int| 0 < n < self.nodes@.len() implies #[trigger] self.linked(n) by {
                assert forall|m: int| 0 <= m < self.words@.len() implies (
                #[trigger] self.words@[m]).len() != d by {
                    if self.words@[m].len() == d {
                        assert(level@.contains(m as usize));
                    }
                }
                lemma_no_longer_word(self.words@, d, n);
            }
            assert(self.owners() =~= first.owners());
        }
    }

    /// No links are set yet.
    pub closed spec fn bare(self) -> bool {
        self.nodes@.len() > 0 && self.nodes@[0].output_link is None
    }

    /// The state that edge `k` of state `n` leads to is linked and in `next`.
    spec fn child_done(self, n: int, k: int, next: Seq<usize>) -> bool {
        let child = self.nodes@[n].transitions@[k].target;
        self.linked(child as int) && next.contains(child)
    }

    proof fn lemma_child_stays(
        self,
        was: DetectionMatcher,
        n: int,
        k: int,
        before: Seq<usize>,
        child: usize,
    )
        requires
            self.same_tree(was),
            was.tree(),
            0 <= n < self.nodes@.len(),
            0 <= k < self.nodes@[n].transitions@.len(),
            was.child_done(n, k, before),
            self.linked(child as int),
            forall|m: int|
                0 <= m < self.nodes@.len() && m != child ==> #[trigger] self.nodes@[m]
                    == was.nodes@[m],
        ensures
            self.child_done(n, k, before.push(child)),
    {
        assert(self.nodes@[n].transitions == was.nodes@[n].transitions);
        assert(was.edge_ok(n, k));
        let c = self.nodes@[n].transitions@[k].target;
        let j = choose|j: int| 0 <= j < before.len() && before[j] == c;
        assert(before.push(child)[j] == c);
        if c != child {
            self.lemma_links_stay(was, c as int);
        }
    }
}

proof fn lemma_symbols_not_empty(s: Seq<u8>)
    requires
        s.len() > 0,
    ensures
        symbols(s).len() > 0,
{
}

/// Whether words are made of the byte.
pub fn is_detection_word_byte(byte: u8) -> (r: bool)
    ensures
        r == word_byte(byte),
{
    crate::bytes::is_ascii_alphanumeric(byte) || byte == 0x5f
}

/// The places of `true`.
pub open spec fn trues(matches: Seq<bool>) -> Set<int> {
    Set::new(|p: int| 0 <= p < matches.len() && matches[p])
}

/// A count that stops at the largest `usize`.
pub open spec fn capped(n: int) -> int {
    if n < usize::MAX {
        n
    } else {
        usize::MAX as int
    }
}

fn count_one(n: &mut usize)
    ensures
        *final(n) == capped(*old(n) + 1),
{
    if *n < usize::MAX {
        *n = *n + 1;
    }
}

/// Where a scan is.
struct Scan {
    state: usize,
    matches: Vec<bool>,
    matched: usize,
    metrics: DetectionScanMetrics,
    symbols: Ghost<int>,
    failures: Ghost<int>,
}

impl Scan {
    /// The scan has read `x`.
    spec fn at(self, m: DetectionMatcher, x: Seq<u16>) -> bool {
        &&& self.fits(m)
        &&& self.state < m.nodes@.len()
        &&& m.words@[self.state as int] == longest_suffix(m.words@, x)
        &&& forall|p: int|
            0 <= p < self.matches@.len() ==> #[trigger] self.matches@[p] == found(
                m.patterns@,
                x,
                p,
            )
        &&& self.symbols@ == x.len()
        &&& self.failures@ + m.words@[self.state as int].len() <= x.len()
        &&& self.failures@ >= 0
    }

    /// The counts of the scan are right.
    spec fn fits(self, m: DetectionMatcher) -> bool {
        &&& self.matches@.len() == m.profile_count
        &&& trues(self.matches@).finite()
        &&& trues(self.matches@).len() == self.matched
        &&& trues(self.matches@).subset_of(m.owners())
        &&& self.metrics.symbols_examined == capped(self.symbols@)
        &&& self.metrics.failure_steps == capped(self.failures@)
        &&& self.metrics.transition_lookups == capped(self.symbols@ + self.failures@)
    }

    /// The scan is over: every profile that has a hint is found.
    spec fn complete(self, m: DetectionMatcher, x: Seq<u16>) -> bool {
        &&& self.fits(m)
        &&& self.matched == m.profiles_with_hints
        &&& forall|p: int|
            0 <= p < self.matches@.len() && #[trigger] self.matches@[p] ==> found(
                m.patterns@,
                x,
                p,
            )
        &&& 0 <= self.failures@ <= self.symbols@
    }
}

impl DetectionMatcher {
    /// Notes the profiles of which a hint ends at `from`; tells whether all
    /// that have hints are found.
    fn note_outputs(&self, scan: &mut Scan, from: usize) -> (r: bool)
        requires
            self.wf(),
            from < self.nodes@.len(),
            old(scan).fits(*self),
        ensures
            final(scan).fits(*self),
            final(scan).state == old(scan).state,
            final(scan).symbols == old(scan).symbols,
            final(scan).failures == old(scan).failures,
            final(scan).metrics.bytes_examined == old(scan).metrics.bytes_examined,
            !r ==> forall|p: int|
                0 <= p < self.profile_count ==> #[trigger] final(scan).matches@[p] == (
                old(scan).matches@[p] || hits(self.patterns@, self.words@[from as int], p)),
            r ==> final(scan).matched == self.profiles_with_hints && forall|p: int|
                0 <= p < self.profile_count && #[trigger] final(scan).matches@[p] ==> (
                old(scan).matches@[p] || hits(self.patterns@, self.words@[from as int], p)),
    {
        let ghost first = *scan;
        let ghost goal = self.words@[from as int];
        let mut at: usize = from;
        loop
            invariant
                self.wf(),
                first == *old(scan),
                first.fits(*self),
                goal == self.words@[from as int],
                at < self.nodes@.len(),
                scan.fits(*self),
                scan.state == first.state,
                scan.symbols == first.symbols,
                scan.failures == first.failures,
                scan.metrics.bytes_examined == first.metrics.bytes_examined,
                forall|p: int|
                    0 <= p < self.profile_count ==> (#[trigger] scan.matches@[p] || hits(
                        self.patterns@,
                        self.words@[at as int],
                        p,
                    )) == (first.matches@[p] || hits(self.patterns@, goal, p)),
            decreases self.words@[at as int].len(),
        {
            let ghost outputs = self.nodes@[at as int].profile_outputs@;
            let ghost here = *scan;
            let mut k: usize = 0;
            assert(at != 0 ==> self.linked(at as int));
            assert(self.link_ok(at as int));
            while k < self.nodes[at].profile_outputs.len()
                invariant
                    self.wf(),
                    self.link_ok(at as int),
                    first == *old(scan),
                    goal == self.words@[from as int],
                    at < self.nodes@.len(),
                    outputs == self.nodes@[at as int].profile_outputs@,
                    k <= outputs.len(),
                    here.fits(*self),
                    scan.fits(*self),
                    scan.state == first.state,
                    scan.symbols == first.symbols,
                    scan.failures == first.failures,
                    scan.metrics.bytes_examined == first.metrics.bytes_examined,
                    forall|p: int|
                        0 <= p < self.profile_count ==> #[trigger] scan.matches@[p] == (
                        here.matches@[p] || exists|j: int| 0 <= j < k && #[trigger] outputs[j] == p),
                    forall|p: int|
                        0 <= p < self.profile_count ==> (#[trigger] here.matches@[p] || hits(
                            self.patterns@,
                            self.words@[at as int],
                            p,
                        )) == (first.matches@[p] || hits(self.patterns@, goal, p)),
                decreases outputs.len() - k,
            {
                let index = self.nodes[at].profile_outputs[k];
                let ghost q = index as int;
                proof {
                    assert(outputs[k as int] == q);
                    assert(self.nodes@[at as int].outputs(q));
                    assert(self.patterns@.contains((self.words@[at as int], q)));
                    assert(self.owners().contains(q));
                    assert(hits(self.patterns@, self.words@[at as int], q));
                }
                count_one(&mut scan.metrics.output_checks);
                let ghost was = *scan;
                if !scan.matches[index] {
                    scan.matches.set(index, true);
                    proof {
                        assert(trues(scan.matches@) =~= trues(was.matches@).insert(q));
                        vstd::set_lib::lemma_len_subset(trues(scan.matches@), self.owners());
                    }
                    scan.matched = scan.matched + 1;
                }
                assert forall|p: int| 0 <= p < self.profile_count implies
                    #[trigger] scan.matches@[p] == (here.matches@[p] || exists|j: int|
                    0 <= j < k + 1 && #[trigger] outputs[j] == p) by {
                    assert(was.matches@[p] == (here.matches@[p] || exists|j: int|
                        0 <= j < k && #[trigger] outputs[j] == p));
                    if p == q {
                        assert(outputs[k as int] == p);
                    } else {
                        assert(scan.matches@[p] == was.matches@[p]);
                        if exists|j: int| 0 <= j < k + 1 && #[trigger] outputs[j] == p {
                            let j = choose|j: int| 0 <= j < k + 1 && #[trigger] outputs[j] == p;
                            assert(j < k);
                        }
                    }
                }
                if scan.matched == self.profiles_with_hints {
                    assert forall|p: int|
                        0 <= p < self.profile_count && #[trigger] scan.matches@[p] implies (
                    old(scan).matches@[p] || hits(self.patterns@, self.words@[from as int], p)) by {
                        if !here.matches@[p] {
                            let j = choose|j: int| 0 <= j < k + 1 && #[trigger] outputs[j] == p;
                            assert(self.nodes@[at as int].outputs(p));
                            assert(self.patterns@.contains((self.words@[at as int], p)));
                            assert(hits(self.patterns@, self.words@[at as int], p));
                        }
                    }
                    return true;
                }
                k = k + 1;
            }
            assert forall|p: int| 0 <= p < self.profile_count implies #[trigger] scan.matches@[p]
                == (here.matches@[p] || self.nodes@[at as int].outputs(p)) by {}
            match self.nodes[at].output_link {
                Some(next) => {
                    assert forall|p: int| 0 <= p < self.profile_count implies (
                    #[trigger] scan.matches@[p] || hits(
                        self.patterns@,
                        self.words@[next as int],
                        p,
                    )) == (first.matches@[p] || hits(self.patterns@, goal, p)) by {
                        assert(scan.matches@[p] == (here.matches@[p]
                            || self.nodes@[at as int].outputs(p)));
                        assert((here.matches@[p] || hits(
                            self.patterns@,
                            self.words@[at as int],
                            p,
                        )) == (first.matches@[p] || hits(self.patterns@, goal, p)));
                    }
                    at = next;
                },
                None => {
                    assert forall|p: int| 0 <= p < self.profile_count implies
                        #[trigger] scan.matches@[p] == (old(scan).matches@[p] || hits(
                        self.patterns@,
                        self.words@[from as int],
                        p,
                    )) by {
                        assert(scan.matches@[p] == (here.matches@[p]
                            || self.nodes@[at as int].outputs(p)));
                        assert((here.matches@[p] || hits(
                            self.patterns@,
                            self.words@[at as int],
                            p,
                        )) == (first.matches@[p] || hits(self.patterns@, goal, p)));
                    }
                    return false;
                },
            }
        }
    }

    /// Reads one symbol; tells whether all profiles with hints are found.
    fn advance_symbol(&self, scan: &mut Scan, symbol: u16, Ghost(x): Ghost<Seq<u16>>) -> (r: bool)
        requires
            self.wf(),
            old(scan).at(*self, x),
        ensures
            final(scan).metrics.bytes_examined == old(scan).metrics.bytes_examined,
            !r ==> final(scan).at(*self, x.push(symbol)),
            r ==> final(scan).complete(*self, x.push(symbol)),
    {
        let ghost first = *scan;
        let ghost y = x.push(symbol);
        let (next, steps) = self.follow(
            scan.state,
            symbol,
            Ghost(self.words@[scan.state as int].len() as int),
        );
        proof {
            lemma_suffix_step(self.words@, x, symbol);
        }
        scan.state = next;
        count_one(&mut scan.metrics.symbols_examined);
        scan.symbols = Ghost(scan.symbols@ + 1);
        scan.metrics.failure_steps = sum_capped(scan.metrics.failure_steps, steps);
        scan.metrics.transition_lookups = sum_capped(
            sum_capped(scan.metrics.transition_lookups, steps),
            1,
        );
        scan.failures = Ghost(scan.failures@ + steps);
        assert(scan.fits(*self));
        let done = self.note_outputs(scan, next);
        proof {
            assert(y.drop_last() =~= x);
            assert forall|p: int| 0 <= p < self.profile_count implies hits(
                self.patterns@,
                self.words@[next as int],
                p,
            ) == #[trigger] hits(self.patterns@, y, p) by {
                lemma_hits_state(self.words@, self.patterns@, y, p);
            }
            assert forall|p: int| 0 <= p < self.profile_count implies #[trigger] found(
                self.patterns@,
                y,
                p,
            ) == (first.matches@[p] || hits(self.patterns@, self.words@[next as int], p)) by {
                assert(hits(self.patterns@, self.words@[next as int], p) == hits(
                    self.patterns@,
                    y,
                    p,
                ));
                assert(first.matches@[p] == found(self.patterns@, x, p));
            }
        }
        done
    }

    /// A finished scan tells of the whole text.
    proof fn lemma_complete(self, scan: Scan, x: Seq<u16>, n: int)
        requires
            self.wf(),
            0 <= n <= x.len(),
            scan.complete(self, x.take(n)),
        ensures
            forall|p: int|
                0 <= p < self.profile_count ==> #[trigger] scan.matches@[p] == found(
                    self.patterns@,
                    x,
                    p,
                ),
    {
        vstd::set_lib::lemma_subset_equality(trues(scan.matches@), self.owners());
        assert forall|p: int| 0 <= p < self.profile_count implies #[trigger] scan.matches@[p]
            == found(self.patterns@, x, p) by {
            if scan.matches@[p] {
                lemma_found_prefix(self.patterns@, x, n, p);
            } else {
                assert(!trues(scan.matches@).contains(p));
                assert(!self.owners().contains(p));
                lemma_found_stands(self.patterns@, x, p);
            }
        }
    }

    /// Scans a text; also tells what that took. A scan looks up at most two
    /// edges for a symbol, on average.
    pub fn scan_with_metrics(&self, haystack: &[u8]) -> (r: (Vec<bool>, DetectionScanMetrics))
        requires
            self.wf(),
        ensures
            r.0@.len() == self.profiles(),
            forall|p: int|
                0 <= p < r.0@.len() ==> #[trigger] r.0@[p] == found(
                    self.patterns(),
                    symbols(haystack@),
                    p,
                ),
            r.1.bytes_examined <= haystack@.len(),
            r.1.failure_steps <= r.1.symbols_examined,
            r.1.transition_lookups <= 2 * r.1.symbols_examined,
    {
        let mut matches: Vec<bool> = Vec::new();
        while matches.len() < self.profile_count
            invariant
                matches@.len() <= self.profile_count,
                forall|p: int| 0 <= p < matches@.len() ==> !#[trigger] matches@[p],
            decreases self.profile_count - matches@.len(),
        {
            matches.push(false);
        }
        let metrics = DetectionScanMetrics {
            bytes_examined: 0,
            symbols_examined: 0,
            transition_lookups: 0,
            failure_steps: 0,
            output_checks: 0,
        };
        let ghost all = symbols(haystack@);
        assert(trues(matches@) =~= Set::<int>::empty());
        if self.profiles_with_hints == 0 {
            assert forall|p: int| 0 <= p < matches@.len() implies #[trigger] matches@[p] == found(
                self.patterns@,
                all,
                p,
            ) by {
                lemma_found_stands(self.patterns@, all, p);
                if found(self.patterns@, all, p) {
                    assert(self.owners().contains(p));
                    assert(self.owners() =~= Set::<int>::empty());
                }
            }
            return (matches, metrics);
        }
        let mut scan = Scan {
            state: 0,
            matches,
            matched: 0,
            metrics,
            symbols: Ghost(0),
            failures: Ghost(0),
        };
        let mut i: usize = 0;
        proof {
            assert(haystack@.take(0) =~= Seq::<u8>::empty());
            let none = Seq::<u16>::empty();
            assert(self.words@[0] =~= longest_suffix(self.words@, none));
            assert forall|p: int| 0 <= p < scan.matches@.len() implies #[trigger] scan.matches@[p]
                == found(self.patterns@, none, p) by {
                if self.patterns@.contains((none, p)) {
                    assert(none.len() > 0);
                }
            }
        }
        while i < haystack.len()
            invariant
                i <= haystack@.len(),
                self.wf(),
                all == symbols(haystack@),
                scan.at(*self, open_symbols(haystack@.take(i as int))),
                scan.metrics.bytes_examined == i,
            decreases haystack@.len() - i,
        {
            let byte = haystack[i];
            let ghost x = open_symbols(haystack@.take(i as int));
            proof {
                let longer = haystack@.take(i + 1);
                assert(longer.drop_last() =~= haystack@.take(i as int));
                assert(unit(longer, i as int) =~= unit(haystack@, i as int));
                assert(open_symbols(longer) == x + unit(haystack@, i as int));
                crate::hints::lemma_prefix_of_symbols(haystack@, i + 1);
            }
            scan.metrics.bytes_examined = i + 1;
            let bounded = if i == 0 {
                is_detection_word_byte(byte)
            } else {
                is_detection_word_byte(haystack[i - 1]) != is_detection_word_byte(byte)
            };
            let ghost mut y = x;
            if bounded {
                let done = self.advance_symbol(&mut scan, DETECTION_BOUNDARY_SYMBOL, Ghost(x));
                proof {
                    y = x.push(DETECTION_BOUNDARY_SYMBOL);
                }
                if done {
                    proof {
                        let longer = open_symbols(haystack@.take(i + 1));
                        assert(longer.take(y.len() as int) =~= y);
                        assert(all.take(y.len() as int) =~= all.take(longer.len() as int).take(
                            y.len() as int,
                        ));
                        self.lemma_complete(scan, all, y.len() as int);
                    }
                    return (scan.matches, scan.metrics);
                }
            }
            let done = self.advance_symbol(&mut scan, to_lower(byte) as u16, Ghost(y));
            proof {
                y = y.push(crate::bytes::lower(byte) as u16);
                assert(y =~= open_symbols(haystack@.take(i + 1)));
            }
            if done {
                proof {
                    self.lemma_complete(scan, all, y.len() as int);
                }
                return (scan.matches, scan.metrics);
            }
            i = i + 1;
        }
        assert(haystack@.take(i as int) =~= haystack@);
        let ghost x = open_symbols(haystack@);
        if haystack.len() > 0 && is_detection_word_byte(haystack[haystack.len() - 1]) {
            let done = self.advance_symbol(&mut scan, DETECTION_BOUNDARY_SYMBOL, Ghost(x));
            assert(x.push(DETECTION_BOUNDARY_SYMBOL) =~= all);
            if done {
                proof {
                    assert(all.take(all.len() as int) =~= all);
                    self.lemma_complete(scan, all, all.len() as int);
                }
                return (scan.matches, scan.metrics);
            }
        } else {
            assert(x =~= all);
        }
        (scan.matches, scan.metrics)
    }

    /// Which profiles have a hint that stands in the text as whole words.
    pub fn matching_profiles(&self, haystack: &[u8]) -> (r: Vec<bool>)
        requires
            self.wf(),
        ensures
            r@.len() == self.profiles(),
            forall|p: int|
                0 <= p < r@.len() ==> #[trigger] r@[p] == found(
                    self.patterns(),
                    symbols(haystack@),
                    p,
                ),
    {
        self.scan_with_metrics(haystack).0
    }
}

/// How many edges the first states have together.
pub open spec fn edges(nodes: Seq<DetectionNode>) -> int
    decreases nodes.len(),
{
    if nodes.len() == 0 {
        0
    } else {
        edges(nodes.drop_last()) + nodes.last().transitions@.len()
    }
}

/// `Vec::capacity`: how many elements fit before the vector has to grow, which
/// is up to the allocator.
#[verifier::external_body]
fn edge_room(transitions: &Vec<DetectionTransition>) -> usize {
    transitions.capacity()
}

impl DetectionMatcher {
    pub closed spec fn nodes(self) -> Seq<DetectionNode> {
        self.nodes@
    }

    /// How large the automaton is.
    pub fn structure(&self) -> (r: DetectionMatcherStructure)
        requires
            self.counted(),
        ensures
            r.node_count == self.nodes().len(),
            r.edge_count == capped(edges(self.nodes())),
            r.pattern_count == capped(self.patterns().len() as int),
    {
        let mut edge_count: usize = 0;
        let mut transition_slots: usize = 0;
        let mut i: usize = 0;
        let ghost mut exact: int = 0;
        while i < self.nodes.len()
            invariant
                i <= self.nodes@.len(),
                exact == edges(self.nodes@.take(i as int)),
                exact >= 0,
                edge_count == capped(exact),
            decreases self.nodes@.len() - i,
        {
            assert(self.nodes@.take(i + 1).drop_last() =~= self.nodes@.take(i as int));
            let count = self.nodes[i].transitions.len();
            edge_count = sum_capped(edge_count, count);
            proof {
                exact = exact + count;
            }
            transition_slots = sum_capped(transition_slots, edge_room(&self.nodes[i].transitions));
            i = i + 1;
        }
        assert(self.nodes@.take(i as int) =~= self.nodes@);
        DetectionMatcherStructure {
            node_count: self.nodes.len(),
            edge_count,
            transition_slots,
            pattern_count: self.pattern_count,
        }
    }
}

fn sum_capped(a: usize, b: usize) -> (r: usize)
    ensures
        r == capped(a + b),
{
    if b <= usize::MAX - a {
        a + b
    } else {
        usize::MAX
    }
}

} // verus!
