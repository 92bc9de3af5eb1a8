//! The automaton: its states, what makes them well formed, and the scan.

use vstd::prelude::*;
use vstd::string::StringSliceAdditionalSpecFns;
use crate::model::{
    encoded, first_report, first_report_from, ids_below, is_candidate, is_longest_suffix_node,
    is_node,
    lemma_candidate_found, lemma_candidate_none, lemma_candidate_start, lemma_candidate_step,
    lemma_report_of_longest_suffix_node, report, tail,
};

pub mod dump;
mod links;
mod trie;

verus! {

/// One node of the automaton.
///
/// `goto` has one entry per byte value, the index of the next state or
/// `NO_STATE`. At the root, a loop back to the root stands for a transition
/// that the trie does not have.
#[derive(Clone)]
struct State {
    out: Vec<usize>,
    fail: usize,
    goto: Vec<usize>,
}

/// What a state holds, as plain values: the identifiers it reports, the
/// index of the state it fails to, and for each byte the index of the next
/// state.
pub struct StateView {
    pub out: Seq<usize>,
    pub fail: usize,
    pub goto: Seq<usize>,
}

impl View for State {
    type V = StateView;

    closed spec fn view(&self) -> StateView {
        StateView { out: self.out@, fail: self.fail, goto: self.goto@ }
    }
}

/// A matcher for a fixed list of patterns.
#[derive(Clone)]
pub struct Automaton {
    pats: Vec<String>,
    states: Vec<State>,
}

/// The index that stands for "no state". The state stored there is never
/// entered, so the index of a live state never equals it.
pub const NO_STATE: usize = 0;

/// The index of the root.
pub const ROOT: usize = 1;

/// The state that `s` leads to on `c` by a transition of the trie, or `0`
/// if it has none. The root's loops back to itself are no such transitions.
spec fn edge(states: Seq<State>, s: int, c: u8) -> int {
    let t = states[s].goto@[c as int];
    if s == ROOT && t == ROOT {
        NO_STATE as int
    } else {
        t as int
    }
}

/// The transition of `s` on `c` agrees with the trie of `pats`: it is there
/// exactly if the word of `s`, continued by `c`, is a trie word, and then
/// leads to the state of that word.
spec fn edge_ok(
    states: Seq<State>,
    words: Seq<Seq<u8>>,
    pats: Seq<Seq<u8>>,
    s: int,
    c: u8,
) -> bool {
    let t = edge(states, s, c);
    if t == NO_STATE {
        !is_node(pats, words[s].push(c))
    } else {
        2 <= t < states.len() && words[t] == words[s].push(c)
    }
}

/// States `s` and `t` stand for different words.
spec fn differ(words: Seq<Seq<u8>>, s: int, t: int) -> bool {
    words[s] != words[t]
}

/// The states are the trie of `pats`, state `s` standing for `words[s]`.
spec fn is_trie_of(states: Seq<State>, words: Seq<Seq<u8>>, pats: Seq<Seq<u8>>) -> bool {
    &&& states.len() == words.len()
    &&& states.len() >= 2
    &&& words[1].len() == 0
    &&& forall|s: int| 0 <= s < states.len() ==> (#[trigger] states[s]).goto@.len() == 256
    &&& forall|s: int|
        2 <= s < states.len() ==> (#[trigger] words[s]).len() > 0 && is_node(pats, words[s])
    &&& forall|s: int, t: int| 1 <= s < t < states.len() ==> #[trigger] differ(words, s, t)
    &&& forall|s: int, c: u8|
        1 <= s < states.len() ==> #[trigger] edge_ok(states, words, pats, s, c)
}

/// State `s` is as the trie builder leaves it when the first `done` patterns
/// are in: it fails to the root, and its output is the identifiers of those
/// patterns that equal its word.
spec fn fresh(
    states: Seq<State>,
    words: Seq<Seq<u8>>,
    pats: Seq<Seq<u8>>,
    done: nat,
    s: int,
) -> bool {
    &&& states[s].fail == ROOT
    &&& states[s].out@ == ids_below(pats, words[s], done)
}

/// The states are the trie of the first `done` patterns and of `cur`, the
/// part of the next pattern that is already in; no failure link is set, and
/// the root has no loops yet.
spec fn is_growing_trie(
    states: Seq<State>,
    words: Seq<Seq<u8>>,
    pats: Seq<Seq<u8>>,
    done: nat,
    cur: Seq<u8>,
) -> bool {
    &&& done <= pats.len() <= usize::MAX
    &&& is_trie_of(states, words, pats.take(done as int).push(cur))
    &&& forall|c: u8| #[trigger] states[1].goto@[c as int] != 1
    &&& forall|s: int| 1 <= s < states.len() ==> #[trigger] fresh(states, words, pats, done, s)
}

/// The states are the trie of `pats` with the root made total, and no
/// failure link is set.
spec fn is_raw_trie_of(states: Seq<State>, words: Seq<Seq<u8>>, pats: Seq<Seq<u8>>) -> bool {
    &&& pats.len() <= usize::MAX
    &&& is_trie_of(states, words, pats)
    &&& root_total(states)
    &&& forall|s: int|
        1 <= s < states.len() ==> #[trigger] fresh(states, words, pats, pats.len(), s)
}

/// The root has a transition on every byte.
spec fn root_total(states: Seq<State>) -> bool {
    forall|c: u8| #[trigger] states[1].goto@[c as int] != 0
}

/// State `s` is finished: its output is the report for its word, and its
/// failure link leads to the longest proper suffix of its word in the trie;
/// the root fails to itself.
spec fn resolved(
    states: Seq<State>,
    words: Seq<Seq<u8>>,
    pats: Seq<Seq<u8>>,
    s: int,
) -> bool {
    &&& states[s].out@ == report(pats, words[s])
    &&& if s == ROOT {
        states[s].fail == ROOT
    } else {
        let f = states[s].fail as int;
        &&& 1 <= f < states.len()
        &&& is_longest_suffix_node(pats, words[s], words[f], words[s].len() - 1)
    }
}

/// The states are the finished automaton of `pats`.
spec fn is_automaton_of(
    states: Seq<State>,
    words: Seq<Seq<u8>>,
    pats: Seq<Seq<u8>>,
) -> bool {
    &&& is_trie_of(states, words, pats)
    &&& root_total(states)
    &&& forall|s: int| 1 <= s < states.len() ==> #[trigger] resolved(states, words, pats, s)
}

/// A trie stays a trie where no transition changes.
proof fn lemma_trie_same_edges(
    old: Seq<State>,
    new: Seq<State>,
    words: Seq<Seq<u8>>,
    nodes: Seq<Seq<u8>>,
)
    requires
        is_trie_of(old, words, nodes),
        new.len() == old.len(),
        forall|s: int| 0 <= s < old.len() ==> (#[trigger] new[s]).goto@ == old[s].goto@,
    ensures
        is_trie_of(new, words, nodes),
{
    assert forall|s: int| 0 <= s < new.len() implies (#[trigger] new[s]).goto@.len() == 256 by {
        assert(old[s].goto@.len() == 256);
    }
    assert forall|s: int, c: u8| 1 <= s < new.len() implies #[trigger] edge_ok(
        new,
        words,
        nodes,
        s,
        c,
    ) by {
        assert(edge_ok(old, words, nodes, s, c));
    }
}

impl State {
    /// The state has no output and no transition, and fails to the root.
    spec fn is_blank(&self) -> bool {
        &&& self.out@.len() == 0
        &&& self.fail == ROOT
        &&& self.goto@.len() == 256
        &&& forall|c: int| 0 <= c < 256 ==> self.goto@[c] == NO_STATE
    }

    /// A state with no output and no transition, which fails to the root.
    fn new() -> (s: State)
        ensures
            s.is_blank(),
    {
        State { out: vec![], fail: ROOT, goto: vec![NO_STATE; 256] }
    }

    /// The transition on `b`, if there is one.
    fn goto(&self, b: u8) -> (r: Option<usize>)
        requires
            self.goto@.len() == 256,
        ensures
            r == if self.goto@[b as int] == NO_STATE {
                None
            } else {
                Some(self.goto@[b as int])
            },
    {
        let i = self.goto[b as usize];
        if i == NO_STATE {
            None
        } else {
            Some(i)
        }
    }
}

impl Automaton {
    /// The patterns that the automaton was built from, in the order of
    /// their identifiers.
    pub closed spec fn patterns(&self) -> Seq<Seq<char>> {
        self.pats.deep_view()
    }

    /// The patterns as bytes, which is how they are matched.
    pub open spec fn pattern_bytes(&self) -> Seq<Seq<u8>> {
        encoded(self.patterns())
    }

    /// The states, from index `0` on, as plain values. The state at
    /// `NO_STATE` is never entered; the one at `ROOT` is the root.
    pub closed spec fn states(&self) -> Seq<StateView> {
        self.states@.map_values(|s: State| s@)
    }

    /// The automaton is finished: `find` may be called.
    pub closed spec fn wf(&self) -> bool {
        exists|words: Seq<Seq<u8>>| is_automaton_of(self.states@, words, self.pattern_bytes())
    }

    /// In a finished automaton every state has an entry for each byte
    /// value, and no transition and no failure link leads out of the states
    /// that are there.
    pub proof fn lemma_references_are_valid(&self)
        requires
            self.wf(),
        ensures
            self.states().len() >= 2,
            forall|s: int|
                0 <= s < self.states().len() ==> (#[trigger] self.states()[s]).goto.len() == 256,
            forall|s: int, c: int|
                1 <= s < self.states().len() && 0 <= c < 256 ==> #[trigger] self.states()[s].goto[c]
                    < self.states().len(),
            forall|s: int|
                1 <= s < self.states().len() ==> 1 <= (#[trigger] self.states()[s]).fail
                    < self.states().len(),
    {
        let pats = self.pattern_bytes();
        let words = choose|words: Seq<Seq<u8>>| is_automaton_of(self.states@, words, pats);
        let states = self.states();
        assert forall|s: int, c: int|
            1 <= s < states.len() && 0 <= c < 256 implies #[trigger] states[s].goto[c]
            < states.len() by {
            assert(edge_ok(self.states@, words, pats, s, c as u8));
        }
        assert forall|s: int| 1 <= s < states.len() implies 1 <= (#[trigger] states[s]).fail
            < states.len() by {
            assert(resolved(self.states@, words, pats, s));
        }
    }

    /// An automaton has no more patterns than identifiers can number.
    pub proof fn lemma_patterns_are_numbered(&self)
        ensures
            self.patterns().len() <= usize::MAX,
    {
        assert(self.pats.len() == self.pats@.len());
    }

    /// The failure links of a finished automaton form no cycle but the
    /// loop at the root: the states can be ranked so that every other state
    /// fails to a state of lower rank.
    pub proof fn lemma_failure_links_descend(&self) -> (rank: Seq<nat>)
        requires
            self.wf(),
        ensures
            rank.len() == self.states().len(),
            self.states()[ROOT as int].fail == ROOT,
            forall|s: int|
                2 <= s < self.states().len() ==> rank[(#[trigger] self.states()[s]).fail as int]
                    < rank[s],
    {
        let pats = self.pattern_bytes();
        let words = choose|words: Seq<Seq<u8>>| is_automaton_of(self.states@, words, pats);
        let states = self.states();
        let rank = Seq::new(states.len(), |s: int| words[s].len());
        assert(resolved(self.states@, words, pats, ROOT as int));
        assert forall|s: int| 2 <= s < states.len() implies rank[(#[trigger] states[s]).fail as int]
            < rank[s] by {
            assert(resolved(self.states@, words, pats, s));
        }
        rank
    }

    /// Whether the automaton is a trie, ready for its failure links.
    spec fn is_raw(&self) -> bool {
        exists|words: Seq<Seq<u8>>| is_raw_trie_of(self.states@, words, self.pattern_bytes())
    }

    /// The automaton of the patterns `pats`.
    pub(crate) fn new(pats: Vec<String>) -> (a: Automaton)
        ensures
            a.wf(),
            a.patterns() == pats.deep_view(),
    {
        Automaton { pats: vec![], states: vec![State::new()] }.build(pats)
    }

    /// Appends `state` and returns its index.
    fn add_state(&mut self, state: State) -> (i: usize)
        ensures
            i == old(self).states@.len(),
            final(self).states@ == old(self).states@.push(state),
            final(self).pats == old(self).pats,
    {
        let i = self.states.len();
        self.states.push(state);
        i
    }

    /// Scans `s` byte by byte and returns the identifiers reported at the
    /// first position where any are, or nothing if the text ends before.
    pub fn find(&self, s: &str) -> (r: Vec<usize>)
        requires
            self.wf(),
        ensures
            r@ == first_report(self.pattern_bytes(), s.spec_bytes()),
    {
        let bytes = s.as_bytes();
        let ghost pats = self.pattern_bytes();
        let ghost text = bytes@;
        let ghost words = choose|words: Seq<Seq<u8>>| is_automaton_of(self.states@, words, pats);
        let mut si: usize = ROOT;
        let mut k: usize = 0;
        proof {
            assert(text.take(0) =~= words[1]);
            assert(tail(text.take(0), 0) =~= words[1]);
        }
        while k < bytes.len()
            invariant
                text == bytes@,
                text == s.spec_bytes(),
                pats == self.pattern_bytes(),
                is_automaton_of(self.states@, words, pats),
                k <= text.len(),
                1 <= si < self.states@.len(),
                is_longest_suffix_node(pats, text.take(k as int), words[si as int], k as int),
                first_report(pats, text) == first_report_from(pats, text, (k + 1) as nat),
            decreases text.len() - k,
        {
            let b = bytes[k];
            let ghost t = text.take(k as int);
            proof {
                lemma_candidate_start(pats, t, words[si as int], b, k as int);
            }
            while self.states[si].goto[b as usize] == NO_STATE
                invariant
                    is_automaton_of(self.states@, words, pats),
                    1 <= si < self.states@.len(),
                    is_candidate(pats, t, words[si as int], b, k as int),
                decreases words[si as int].len(),
            {
                proof {
                    assert(resolved(self.states@, words, pats, si as int));
                    assert(edge_ok(self.states@, words, pats, si as int, b));
                    assert(self.states@[1].goto@[b as int] != 0);
                    lemma_candidate_step(
                        pats,
                        t,
                        words[si as int],
                        words[self.states@[si as int].fail as int],
                        b,
                        k as int,
                    );
                }
                si = self.states[si].fail;
            }
            proof {
                assert(edge_ok(self.states@, words, pats, si as int, b));
                assert(t.push(b) =~= text.take(k + 1));
                if edge(self.states@, si as int, b) == 0 {
                    lemma_candidate_none(pats, t, words[si as int], b, k as int);
                } else {
                    lemma_candidate_found(pats, t, words[si as int], b, k as int);
                }
            }
            si = self.states[si].goto[b as usize];
            k = k + 1;
            proof {
                assert(resolved(self.states@, words, pats, si as int));
                lemma_report_of_longest_suffix_node(
                    pats,
                    text.take(k as int),
                    words[si as int],
                    k as int,
                );
            }
            if !self.states[si].out.is_empty() {
                return self.states[si].out.clone();
            }
        }
        Vec::new()
    }
}

} // verus!
