//! Trie construction: every pattern becomes a path of states from the root.

use vstd::prelude::*;
use super::{
    differ, edge, edge_ok, fresh, is_growing_trie, is_raw_trie_of, is_trie_of,
    lemma_trie_same_edges, Automaton, State, NO_STATE, ROOT,
};
use crate::model::{encoded, ids_below, is_node, lemma_ids_below_empty, lemma_node_prefix};

verus! {

/// An empty pattern adds no trie word.
proof fn lemma_nodes_with_empty(nodes: Seq<Seq<u8>>, w: Seq<u8>)
    ensures
        is_node(nodes.push(Seq::empty()), w) == is_node(nodes, w),
{
    let more = nodes.push(Seq::empty());
    if w.len() > 0 {
        if is_node(nodes, w) {
            let i = choose|i: int| 0 <= i < nodes.len() && w.is_prefix_of(#[trigger] nodes[i]);
            assert(w.is_prefix_of(more[i]));
        }
        if is_node(more, w) {
            let i = choose|i: int| 0 <= i < more.len() && w.is_prefix_of(#[trigger] more[i]);
            assert(w.is_prefix_of(nodes[i]));
        }
    }
}

/// Where the last pattern grows by one byte, the trie gains that pattern
/// as its one new word.
proof fn lemma_nodes_grow(nodes: Seq<Seq<u8>>, q: Seq<u8>, b: u8, w: Seq<u8>)
    ensures
        is_node(nodes.push(q.push(b)), w) == (is_node(nodes.push(q), w) || w == q.push(b)),
{
    let short = nodes.push(q);
    let long = nodes.push(q.push(b));
    let last = nodes.len() as int;
    if w.len() > 0 {
        if is_node(long, w) {
            let i = choose|i: int| 0 <= i < long.len() && w.is_prefix_of(#[trigger] long[i]);
            if i < last {
                assert(w.is_prefix_of(short[i]));
            } else if w.len() <= q.len() {
                assert(w =~= q.subrange(0, w.len() as int));
                assert(w.is_prefix_of(short[i]));
            } else {
                assert(w =~= q.push(b));
            }
        }
        if is_node(short, w) {
            let i = choose|i: int| 0 <= i < short.len() && w.is_prefix_of(#[trigger] short[i]);
            if i < last {
                assert(w.is_prefix_of(long[i]));
            } else {
                assert(w =~= q.push(b).subrange(0, w.len() as int));
                assert(w.is_prefix_of(long[last]));
            }
        }
        if w == q.push(b) {
            assert(w.is_prefix_of(long[last]));
        }
    }
}

/// A trie stays the trie of any patterns that have the same words.
proof fn lemma_trie_same_nodes(
    states: Seq<State>,
    words: Seq<Seq<u8>>,
    n0: Seq<Seq<u8>>,
    n1: Seq<Seq<u8>>,
)
    requires
        is_trie_of(states, words, n0),
        forall|w: Seq<u8>|
            #![trigger is_node(n0, w)]
            #![trigger is_node(n1, w)]
            is_node(n0, w) == is_node(n1, w),
    ensures
        is_trie_of(states, words, n1),
{
    assert forall|s: int, c: u8| 1 <= s < states.len() implies #[trigger] edge_ok(
        states,
        words,
        n1,
        s,
        c,
    ) by {
        assert(edge_ok(states, words, n0, s, c));
    }
}

/// The sentinel and the root alone are the trie of no patterns.
proof fn lemma_trie_start(states: Seq<State>, pats: Seq<Seq<u8>>)
    requires
        pats.len() <= usize::MAX,
        states.len() == 2,
        states[0].is_blank(),
        states[1].is_blank(),
    ensures
        is_growing_trie(states, seq![Seq::empty(), Seq::empty()], pats, 0, Seq::empty()),
{
    let words: Seq<Seq<u8>> = seq![Seq::empty(), Seq::empty()];
    let nodes = pats.take(0).push(Seq::empty());
    assert(states[1].goto@.len() == 256);
    assert forall|s: int, c: u8| 1 <= s < states.len() implies #[trigger] edge_ok(
        states,
        words,
        nodes,
        s,
        c,
    ) by {
        lemma_nodes_with_empty(pats.take(0), words[s].push(c));
    }
    assert forall|s: int| 1 <= s < states.len() implies #[trigger] fresh(
        states,
        words,
        pats,
        0,
        s,
    ) by {
        assert(states[s].out@ =~= ids_below(pats, words[s], 0));
    }
}

/// Following a transition that is there moves to the state of the longer
/// word, and the trie is that of the longer pattern too.
proof fn lemma_trie_follow(
    states: Seq<State>,
    words: Seq<Seq<u8>>,
    pats: Seq<Seq<u8>>,
    done: nat,
    q: Seq<u8>,
    b: u8,
    prev: int,
)
    requires
        is_growing_trie(states, words, pats, done, q),
        1 <= prev < states.len(),
        words[prev] == q,
        states[prev].goto@[b as int] != 0,
    ensures
        1 <= states[prev].goto@[b as int] < states.len(),
        words[states[prev].goto@[b as int] as int] == q.push(b),
        is_growing_trie(states, words, pats, done, q.push(b)),
{
    let t = states[prev].goto@[b as int] as int;
    let n0 = pats.take(done as int).push(q);
    let n1 = pats.take(done as int).push(q.push(b));
    assert(states[1].goto@[b as int] != 1);
    assert(edge_ok(states, words, n0, prev, b));
    assert(words[t].len() > 0 && is_node(n0, words[t]));
    assert forall|w: Seq<u8>|
        #![trigger is_node(n0, w)]
        #![trigger is_node(n1, w)]
        is_node(n0, w) == is_node(n1, w) by {
        lemma_nodes_grow(pats.take(done as int), q, b, w);
    }
    lemma_trie_same_nodes(states, words, n0, n1);
}

/// A new state for the word `q.push(b)`, reached from the state of `q`,
/// extends the trie by that word.
proof fn lemma_trie_grow(
    old: Seq<State>,
    new: Seq<State>,
    words: Seq<Seq<u8>>,
    pats: Seq<Seq<u8>>,
    done: nat,
    q: Seq<u8>,
    b: u8,
    prev: int,
)
    requires
        is_growing_trie(old, words, pats, done, q),
        1 <= prev < old.len(),
        words[prev] == q,
        old[prev].goto@[b as int] == 0,
        old.len() <= usize::MAX,
        new.len() == old.len() + 1,
        forall|s: int| 0 <= s < old.len() && s != prev ==> #[trigger] new[s] == old[s],
        new[prev].out == old[prev].out,
        new[prev].fail == old[prev].fail,
        new[prev].goto@ == old[prev].goto@.update(b as int, old.len() as usize),
        new[old.len() as int].is_blank(),
    ensures
        is_growing_trie(new, words.push(q.push(b)), pats, done, q.push(b)),
{
    let fresh_word = q.push(b);
    let added = old.len() as int;
    let new_words = words.push(fresh_word);
    let base = pats.take(done as int);
    let n0 = base.push(q);
    let n1 = base.push(fresh_word);
    assert(edge_ok(old, words, n0, prev, b));
    assert(!is_node(n0, fresh_word));
    assert(old[prev].goto@.len() == 256);
    assert forall|s: int| 0 <= s < new.len() implies (#[trigger] new[s]).goto@.len() == 256 by {
        if s < added && s != prev {
            assert(new[s] == old[s]);
            assert(old[s].goto@.len() == 256);
        }
    }
    assert forall|s: int| 2 <= s < new.len() implies (#[trigger] new_words[s]).len() > 0
        && is_node(n1, new_words[s]) by {
        lemma_nodes_grow(base, q, b, new_words[s]);
        if s < added {
            assert(words[s].len() > 0 && is_node(n0, words[s]));
        }
    }
    assert forall|s: int, t: int| 1 <= s < t < new.len() implies #[trigger] differ(
        new_words,
        s,
        t,
    ) by {
        if t < added {
            assert(differ(words, s, t));
        } else if s >= 2 {
            assert(words[s].len() > 0 && is_node(n0, words[s]));
        }
    }
    assert forall|s: int, c: u8| 1 <= s < new.len() implies #[trigger] edge_ok(
        new,
        new_words,
        n1,
        s,
        c,
    ) by {
        let next = new_words[s].push(c);
        lemma_nodes_grow(base, q, b, next);
        if s == added {
            assert(edge(new, s, c) == 0);
            if is_node(n0, next) {
                assert(fresh_word =~= next.subrange(0, fresh_word.len() as int));
                lemma_node_prefix(n0, fresh_word, next);
            }
        } else {
            assert(edge_ok(old, words, n0, s, c));
            if s == prev && c == b {
                assert(edge(new, s, c) == added);
            } else {
                if s != prev {
                    assert(new[s] == old[s]);
                }
                assert(edge(new, s, c) == edge(old, s, c));
                if next == fresh_word {
                    assert(next.last() == c && fresh_word.last() == b);
                    assert(words[s] =~= next.drop_last());
                    assert(q =~= fresh_word.drop_last());
                    if s < prev {
                        assert(differ(words, s, prev));
                    } else if prev < s {
                        assert(differ(words, prev, s));
                    }
                }
            }
        }
    }
    assert forall|c: u8| #[trigger] new[1].goto@[c as int] != 1 by {
        assert(old[1].goto@[c as int] != 1);
        if prev != 1 {
            assert(new[1] == old[1]);
        }
    }
    assert forall|s: int| 1 <= s < new.len() implies #[trigger] fresh(
        new,
        new_words,
        pats,
        done,
        s,
    ) by {
        if s < added {
            assert(fresh(old, words, pats, done, s));
            if s != prev {
                assert(new[s] == old[s]);
            }
        } else {
            assert forall|i: int| 0 <= i < done implies #[trigger] pats[i] != fresh_word by {
                if pats[i] == fresh_word {
                    assert(fresh_word.is_prefix_of(n0[i]));
                }
            }
            lemma_ids_below_empty(pats, fresh_word, done);
            assert(new[s].out@ =~= ids_below(pats, fresh_word, done));
        }
    }
}

/// When a pattern is all in, its identifier joins the output of its last
/// state, and the trie is that of one pattern more.
proof fn lemma_trie_end_pattern(
    old: Seq<State>,
    new: Seq<State>,
    words: Seq<Seq<u8>>,
    pats: Seq<Seq<u8>>,
    done: nat,
    prev: int,
)
    requires
        done < pats.len(),
        is_growing_trie(old, words, pats, done, pats[done as int]),
        1 <= prev < old.len(),
        words[prev] == pats[done as int],
        new.len() == old.len(),
        forall|s: int| 0 <= s < old.len() && s != prev ==> #[trigger] new[s] == old[s],
        new[prev].goto == old[prev].goto,
        new[prev].fail == old[prev].fail,
        new[prev].out@ == old[prev].out@.push(done as usize),
    ensures
        is_growing_trie(new, words, pats, (done + 1) as nat, Seq::empty()),
{
    let n0 = pats.take(done as int).push(pats[done as int]);
    let n1 = pats.take(done as int + 1).push(Seq::empty());
    assert(n0 =~= pats.take(done as int + 1));
    assert forall|w: Seq<u8>|
        #![trigger is_node(n0, w)]
        #![trigger is_node(n1, w)]
        is_node(n0, w) == is_node(n1, w) by {
        lemma_nodes_with_empty(n0, w);
    }
    lemma_trie_same_nodes(old, words, n0, n1);
    assert forall|s: int| 0 <= s < old.len() implies (#[trigger] new[s]).goto@ == old[s].goto@ by {
        if s != prev {
            assert(new[s] == old[s]);
        }
    }
    lemma_trie_same_edges(old, new, words, n1);
    assert forall|c: u8| #[trigger] new[1].goto@[c as int] != 1 by {
        assert(old[1].goto@[c as int] != 1);
        assert(new[1].goto@ == old[1].goto@);
    }
    assert forall|s: int| 1 <= s < new.len() implies #[trigger] fresh(
        new,
        words,
        pats,
        (done + 1) as nat,
        s,
    ) by {
        assert(fresh(old, words, pats, done, s));
        if s != prev {
            assert(new[s] == old[s]);
            if s < prev {
                assert(differ(words, s, prev));
            } else {
                assert(differ(words, prev, s));
            }
        }
    }
}

/// When all patterns are in, the trie is that of the patterns.
proof fn lemma_trie_all_in(states: Seq<State>, words: Seq<Seq<u8>>, pats: Seq<Seq<u8>>)
    requires
        is_growing_trie(states, words, pats, pats.len(), Seq::empty()),
    ensures
        is_trie_of(states, words, pats),
{
    let n0 = pats.take(pats.len() as int).push(Seq::empty());
    assert(pats.take(pats.len() as int) =~= pats);
    assert forall|w: Seq<u8>|
        #![trigger is_node(n0, w)]
        #![trigger is_node(pats, w)]
        is_node(n0, w) == is_node(pats, w) by {
        lemma_nodes_with_empty(pats, w);
    }
    lemma_trie_same_nodes(states, words, n0, pats);
}

/// A loop at the root, in place of a transition that is not there, leaves
/// the trie as it is.
proof fn lemma_trie_root_loop(
    old: Seq<State>,
    new: Seq<State>,
    words: Seq<Seq<u8>>,
    pats: Seq<Seq<u8>>,
    c: u8,
)
    requires
        is_trie_of(old, words, pats),
        forall|s: int| 1 <= s < old.len() ==> #[trigger] fresh(old, words, pats, pats.len(), s),
        old[1].goto@[c as int] == 0,
        new.len() == old.len(),
        forall|s: int| 0 <= s < old.len() && s != 1 ==> #[trigger] new[s] == old[s],
        new[1].out == old[1].out,
        new[1].fail == old[1].fail,
        new[1].goto@ == old[1].goto@.update(c as int, 1usize),
    ensures
        is_trie_of(new, words, pats),
        forall|s: int| 1 <= s < new.len() ==> #[trigger] fresh(new, words, pats, pats.len(), s),
{
    assert(old[1].goto@.len() == 256);
    assert forall|s: int| 0 <= s < new.len() implies (#[trigger] new[s]).goto@.len() == 256 by {
        if s != 1 {
            assert(new[s] == old[s]);
            assert(old[s].goto@.len() == 256);
        }
    }
    assert forall|s: int, d: u8| 1 <= s < new.len() implies #[trigger] edge_ok(
        new,
        words,
        pats,
        s,
        d,
    ) by {
        assert(edge_ok(old, words, pats, s, d));
        if s != 1 {
            assert(new[s] == old[s]);
        }
        assert(edge(new, s, d) == edge(old, s, d));
    }
    assert forall|s: int| 1 <= s < new.len() implies #[trigger] fresh(
        new,
        words,
        pats,
        pats.len(),
        s,
    ) by {
        assert(fresh(old, words, pats, pats.len(), s));
        if s != 1 {
            assert(new[s] == old[s]);
        }
    }
}

impl Automaton {
    /// Inserts every pattern into the trie, makes the root total, and
    /// completes the automaton.
    pub(super) fn build(self, pats: Vec<String>) -> (a: Automaton)
        requires
            self.states@.len() == 1,
            self.states@[0].is_blank(),
        ensures
            a.wf(),
            a.patterns() == pats.deep_view(),
    {
        let mut aut = self;
        let rooti = aut.add_state(State::new());
        let ghost all = encoded(pats.deep_view());
        let ghost mut words: Seq<Seq<u8>> = seq![Seq::empty(), Seq::empty()];
        proof {
            lemma_trie_start(aut.states@, all);
        }
        for pati in 0..pats.len()
            invariant
                rooti == 1,
                all == encoded(pats.deep_view()),
                is_growing_trie(aut.states@, words, all, pati as nat, Seq::empty()),
        {
            let pat = pats[pati].as_str().as_bytes();
            let mut previ = rooti;
            proof {
                assert(pat@ == all[pati as int]);
                assert(pat@.take(0) =~= Seq::empty());
            }
            for j in 0..pat.len()
                invariant
                    all == encoded(pats.deep_view()),
                    pati < pats.len(),
                    pat@ == all[pati as int],
                    1 <= previ < aut.states@.len(),
                    words[previ as int] == pat@.take(j as int),
                    is_growing_trie(aut.states@, words, all, pati as nat, pat@.take(j as int)),
            {
                let b = pat[j];
                let ghost q = pat@.take(j as int);
                proof {
                    assert(q.push(b) =~= pat@.take(j + 1));
                    assert(aut.states@[previ as int].goto@.len() == 256);
                }
                match aut.states[previ].goto(b) {
                    Some(si) => {
                        proof {
                            lemma_trie_follow(
                                aut.states@,
                                words,
                                all,
                                pati as nat,
                                q,
                                b,
                                previ as int,
                            );
                        }
                        previ = si;
                    },
                    None => {
                        let ghost old_states = aut.states@;
                        let nexti = aut.add_state(State::new());
                        aut.states[previ].goto[b as usize] = nexti;
                        proof {
                            lemma_trie_grow(
                                old_states,
                                aut.states@,
                                words,
                                all,
                                pati as nat,
                                q,
                                b,
                                previ as int,
                            );
                            words = words.push(q.push(b));
                        }
                        previ = nexti;
                    },
                }
            }
            let ghost old_states = aut.states@;
            proof {
                assert(pat@.take(pat@.len() as int) =~= pat@);
            }
            aut.states[previ].out.push(pati);
            proof {
                lemma_trie_end_pattern(
                    old_states,
                    aut.states@,
                    words,
                    all,
                    pati as nat,
                    previ as int,
                );
            }
        }
        proof {
            lemma_trie_all_in(aut.states@, words, all);
        }
        for c in 0..256usize
            invariant
                rooti == 1,
                all.len() <= usize::MAX,
                is_trie_of(aut.states@, words, all),
                forall|s: int|
                    1 <= s < aut.states@.len() ==> #[trigger] fresh(
                        aut.states@,
                        words,
                        all,
                        all.len(),
                        s,
                    ),
                forall|d: u8| d < c ==> #[trigger] aut.states@[1].goto@[d as int] != 0,
        {
            assert(aut.states@[1].goto@.len() == 256);
            if aut.states[rooti].goto[c] == NO_STATE {
                let ghost old_states = aut.states@;
                aut.states[rooti].goto[c] = ROOT;
                proof {
                    lemma_trie_root_loop(old_states, aut.states@, words, all, c as u8);
                }
            }
        }
        aut.pats = pats;
        proof {
            assert(is_raw_trie_of(aut.states@, words, aut.pattern_bytes()));
        }
        aut.fill()
    }
}

} // verus!
