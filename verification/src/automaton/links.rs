//! Failure links and merged outputs, breadth first from the root.
//!
//! The proof follows the queue. `order` lists the states in the order in
//! which they were found, the root first: the first `head` of them have
//! handed out their children, the rest wait in the queue. A state is
//! finished when it enters `order`.

use std::collections::VecDeque;
use vstd::prelude::*;
use vstd::set_lib::{lemma_int_range, lemma_len_subset, set_int_range};
use super::{
    differ, edge, edge_ok, fresh, is_automaton_of, is_raw_trie_of, is_trie_of,
    lemma_trie_same_edges, resolved, root_total, Automaton, State, NO_STATE, ROOT,
};
use crate::model::{
    encoded, ids_of, is_candidate, is_longest_suffix_node, is_node, lemma_candidate_found,
    lemma_candidate_none, lemma_candidate_start, lemma_candidate_step, lemma_node_prefix,
    lemma_report_of_longest_suffix_node, report, report_upto, tail,
};

verus! {

/// The state whose word is the word of `x` without its last byte.
spec fn parent(words: Seq<Seq<u8>>, x: int) -> int {
    choose|s: int| 1 <= s < words.len() && words[s] == words[x].drop_last()
}

/// The parent of `x` has handed out the child `x`: it is among the first
/// `head` states of the order, and if it is the last of these, the byte
/// that leads to `x` is below `c`.
spec fn handed_out(words: Seq<Seq<u8>>, pos: Seq<int>, head: int, c: int, x: int) -> bool {
    let p = parent(words, x);
    &&& 0 <= pos[p] < head
    &&& pos[p] == head - 1 ==> words[x].last() < c
}

/// `pos` knows the place of the `j`-th state of the order.
spec fn placed(order: Seq<int>, pos: Seq<int>, n: nat, j: int) -> bool {
    1 <= order[j] < n && pos[order[j]] == j
}

/// The place that `pos` gives for `x`, if any, holds `x`.
spec fn place_ok(order: Seq<int>, pos: Seq<int>, x: int) -> bool {
    pos[x] == -1 || (0 <= pos[x] < order.len() && order[pos[x]] == x)
}

/// The `i`-th state of the order is no deeper than the `j`-th.
spec fn by_depth(words: Seq<Seq<u8>>, order: Seq<int>, i: int, j: int) -> bool {
    words[order[i]].len() <= words[order[j]].len()
}

/// The `j`-th state of the order is at most one level below the state that
/// is handing out its children.
spec fn near(words: Seq<Seq<u8>>, order: Seq<int>, head: int, j: int) -> bool {
    words[order[j]].len() <= words[order[head - 1]].len() + 1
}

/// A state in the order is finished; any other is as the trie builder left
/// it.
spec fn status_ok(
    states: Seq<State>,
    words: Seq<Seq<u8>>,
    pats: Seq<Seq<u8>>,
    pos: Seq<int>,
    x: int,
) -> bool {
    if pos[x] >= 0 {
        resolved(states, words, pats, x)
    } else {
        fresh(states, words, pats, pats.len(), x)
    }
}

/// What holds while the links are computed, when the state at place
/// `head - 1` has handed out its children on the bytes below `c`.
spec fn bfs_inv(
    states: Seq<State>,
    words: Seq<Seq<u8>>,
    pats: Seq<Seq<u8>>,
    order: Seq<int>,
    pos: Seq<int>,
    head: int,
    c: int,
) -> bool {
    &&& pats.len() <= usize::MAX
    &&& is_trie_of(states, words, pats)
    &&& root_total(states)
    &&& pos.len() == states.len()
    &&& 1 <= head <= order.len()
    &&& 0 <= c <= 256
    &&& order[0] == 1
    &&& forall|j: int| 0 <= j < order.len() ==> #[trigger] placed(order, pos, states.len(), j)
    &&& forall|x: int| 1 <= x < states.len() ==> #[trigger] place_ok(order, pos, x)
    &&& forall|i: int, j: int| 0 <= i <= j < order.len() ==> #[trigger] by_depth(words, order, i, j)
    &&& forall|j: int| 0 <= j < order.len() ==> #[trigger] near(words, order, head, j)
    &&& forall|x: int|
        2 <= x < states.len() ==> (pos[x] >= 0) == #[trigger] handed_out(words, pos, head, c, x)
    &&& forall|x: int| 1 <= x < states.len() ==> #[trigger] status_ok(states, words, pats, pos, x)
}

/// The queue holds the states of the order from place `head` on, the one
/// found last at its front.
spec fn queue_is(q: Seq<usize>, order: Seq<int>, head: int) -> bool {
    &&& q.len() == order.len() - head
    &&& forall|i: int| 0 <= i < q.len() ==> #[trigger] q[i] == order[order.len() - 1 - i]
}

/// Every trie word has a state.
proof fn lemma_node_has_state(
    states: Seq<State>,
    words: Seq<Seq<u8>>,
    pats: Seq<Seq<u8>>,
    w: Seq<u8>,
) -> (s: int)
    requires
        is_trie_of(states, words, pats),
        is_node(pats, w),
    ensures
        1 <= s < states.len(),
        words[s] == w,
    decreases w.len(),
{
    if w.len() == 0 {
        assert(words[1] =~= w);
        1
    } else {
        let shorter = w.drop_last();
        lemma_node_prefix(pats, shorter, w);
        let s0 = lemma_node_has_state(states, words, pats, shorter);
        assert(edge_ok(states, words, pats, s0, w.last()));
        assert(words[s0].push(w.last()) =~= w);
        edge(states, s0, w.last())
    }
}

/// Every state but the root has a parent, one level above it.
proof fn lemma_parent(states: Seq<State>, words: Seq<Seq<u8>>, pats: Seq<Seq<u8>>, x: int)
    requires
        is_trie_of(states, words, pats),
        2 <= x < states.len(),
    ensures
        1 <= parent(words, x) < states.len(),
        words[parent(words, x)] == words[x].drop_last(),
        words[parent(words, x)].len() + 1 == words[x].len(),
        edge(states, parent(words, x), words[x].last()) == x,
{
    assert(words[x].len() > 0 && is_node(pats, words[x]));
    lemma_node_prefix(pats, words[x].drop_last(), words[x]);
    // The shorter word has a state, so `parent` chooses one.
    let s = lemma_node_has_state(states, words, pats, words[x].drop_last());
    assert(words[s] == words[x].drop_last());
    let p = parent(words, x);
    let last = words[x].last();
    assert(edge_ok(states, words, pats, p, last));
    assert(words[p].push(last) =~= words[x]);
    let t = edge(states, p, last);
    if t < x {
        assert(differ(words, t, x));
    } else if x < t {
        assert(differ(words, x, t));
    }
}

/// A state that a transition of the trie leads to has the source of that
/// transition as its parent.
proof fn lemma_child(
    states: Seq<State>,
    words: Seq<Seq<u8>>,
    pats: Seq<Seq<u8>>,
    s: int,
    c: u8,
)
    requires
        is_trie_of(states, words, pats),
        1 <= s < states.len(),
        edge(states, s, c) != 0,
    ensures
        2 <= edge(states, s, c) < states.len(),
        words[edge(states, s, c)] == words[s].push(c),
        words[edge(states, s, c)].last() == c,
        parent(words, edge(states, s, c)) == s,
{
    let u = edge(states, s, c);
    assert(edge_ok(states, words, pats, s, c));
    lemma_parent(states, words, pats, u);
    let p = parent(words, u);
    assert(words[u].drop_last() =~= words[s]);
    if p < s {
        assert(differ(words, p, s));
    } else if s < p {
        assert(differ(words, s, p));
    }
}

/// At the start only the root is in the order, and it has handed out
/// nothing.
proof fn lemma_bfs_start(states: Seq<State>, words: Seq<Seq<u8>>, pats: Seq<Seq<u8>>)
    requires
        is_raw_trie_of(states, words, pats),
    ensures
        bfs_inv(
            states,
            words,
            pats,
            seq![1int],
            Seq::new(states.len(), |x: int| if x == 1 { 0int } else { -1int }),
            1,
            0,
        ),
{
    let order = seq![1int];
    let pos = Seq::new(states.len(), |x: int| if x == 1 { 0int } else { -1int });
    assert forall|x: int| 1 <= x < states.len() implies #[trigger] status_ok(
        states,
        words,
        pats,
        pos,
        x,
    ) by {
        assert(fresh(states, words, pats, pats.len(), x));
        if x == 1 {
            assert(words[1] =~= Seq::empty());
        }
    }
    assert forall|j: int| 0 <= j < order.len() implies #[trigger] placed(
        order,
        pos,
        states.len(),
        j,
    ) by {}
    assert forall|x: int| 1 <= x < states.len() implies #[trigger] place_ok(order, pos, x) by {}
    assert forall|i: int, j: int| 0 <= i <= j < order.len() implies #[trigger] by_depth(
        words,
        order,
        i,
        j,
    ) by {}
    assert forall|j: int| 0 <= j < order.len() implies #[trigger] near(words, order, 1, j) by {}
    assert forall|x: int| 2 <= x < states.len() implies (pos[x] >= 0) == #[trigger] handed_out(
        words,
        pos,
        1,
        0,
        x,
    ) by {
        lemma_parent(states, words, pats, x);
    }
}

/// Where the state that hands out its children has none on byte `c`, it
/// has handed them out on the bytes up to `c`.
proof fn lemma_bfs_skip(
    states: Seq<State>,
    words: Seq<Seq<u8>>,
    pats: Seq<Seq<u8>>,
    order: Seq<int>,
    pos: Seq<int>,
    head: int,
    c: int,
)
    requires
        bfs_inv(states, words, pats, order, pos, head, c),
        c < 256,
        edge(states, order[head - 1], c as u8) == 0,
    ensures
        bfs_inv(states, words, pats, order, pos, head, c + 1),
{
    assert(placed(order, pos, states.len(), head - 1));
    assert forall|x: int| 2 <= x < states.len() implies (pos[x] >= 0) == #[trigger] handed_out(
        words,
        pos,
        head,
        c + 1,
        x,
    ) by {
        assert((pos[x] >= 0) == handed_out(words, pos, head, c, x));
        lemma_parent(states, words, pats, x);
        assert(place_ok(order, pos, parent(words, x)));
    }
}

/// A child of the state that hands out its children enters the order,
/// finished.
proof fn lemma_bfs_enqueue(
    old: Seq<State>,
    new: Seq<State>,
    words: Seq<Seq<u8>>,
    pats: Seq<Seq<u8>>,
    order: Seq<int>,
    pos: Seq<int>,
    head: int,
    c: int,
    u: int,
)
    requires
        bfs_inv(old, words, pats, order, pos, head, c),
        c < 256,
        edge(old, order[head - 1], c as u8) == u,
        u != 0,
        new.len() == old.len(),
        forall|x: int| 0 <= x < old.len() && x != u ==> #[trigger] new[x] == old[x],
        new[u].goto == old[u].goto,
        resolved(new, words, pats, u),
    ensures
        bfs_inv(new, words, pats, order.push(u), pos.update(u, order.len() as int), head, c + 1),
{
    let cur = order[head - 1];
    let n = old.len();
    let order2 = order.push(u);
    let pos2 = pos.update(u, order.len() as int);
    assert(placed(order, pos, n, head - 1));
    lemma_child(old, words, pats, cur, c as u8);
    lemma_not_yet_found(old, words, pats, order, pos, head, c, u);
    assert forall|s: int| 0 <= s < old.len() implies (#[trigger] new[s]).goto@ == old[s].goto@ by {
        if s != u {
            assert(new[s] == old[s]);
        }
    }
    lemma_trie_same_edges(old, new, words, pats);
    assert forall|d: u8| #[trigger] new[1].goto@[d as int] != 0 by {
        assert(old[1].goto@[d as int] != 0);
        assert(new[1].goto@ == old[1].goto@);
    }
    assert forall|j: int| 0 <= j < order2.len() implies #[trigger] placed(order2, pos2, n, j) by {
        if j < order.len() {
            assert(placed(order, pos, n, j));
        }
    }
    assert forall|x: int| 1 <= x < n implies #[trigger] place_ok(order2, pos2, x) by {
        assert(place_ok(order, pos, x));
    }
    assert forall|i: int, j: int| 0 <= i <= j < order2.len() implies #[trigger] by_depth(
        words,
        order2,
        i,
        j,
    ) by {
        if j < order.len() {
            assert(by_depth(words, order, i, j));
        } else if i < order.len() {
            assert(near(words, order, head, i));
        }
    }
    assert forall|j: int| 0 <= j < order2.len() implies #[trigger] near(words, order2, head, j) by {
        if j < order.len() {
            assert(near(words, order, head, j));
        }
    }
    assert forall|x: int| 2 <= x < n implies (pos2[x] >= 0) == #[trigger] handed_out(
        words,
        pos2,
        head,
        c + 1,
        x,
    ) by {
        assert((pos[x] >= 0) == handed_out(words, pos, head, c, x));
        lemma_parent(old, words, pats, x);
        let p = parent(words, x);
        assert(place_ok(order, pos, p));
    }
    assert forall|x: int| 1 <= x < n implies #[trigger] status_ok(new, words, pats, pos2, x) by {
        assert(status_ok(old, words, pats, pos, x));
        if x != u {
            assert(new[x] == old[x]);
        }
    }
}

/// The child on byte `c` of the state that hands out its children is not
/// in the order yet.
proof fn lemma_not_yet_found(
    states: Seq<State>,
    words: Seq<Seq<u8>>,
    pats: Seq<Seq<u8>>,
    order: Seq<int>,
    pos: Seq<int>,
    head: int,
    c: int,
    u: int,
)
    requires
        bfs_inv(states, words, pats, order, pos, head, c),
        c < 256,
        edge(states, order[head - 1], c as u8) == u,
        u != 0,
    ensures
        2 <= u < states.len(),
        pos[u] == -1,
        fresh(states, words, pats, pats.len(), u),
        words[u] == words[order[head - 1]].push(c as u8),
{
    let cur = order[head - 1];
    assert(placed(order, pos, states.len(), head - 1));
    lemma_child(states, words, pats, cur, c as u8);
    assert((pos[u] >= 0) == handed_out(words, pos, head, c, u));
    assert(place_ok(order, pos, u));
    assert(status_ok(states, words, pats, pos, u));
}

/// When a state has handed out all its children, the next state of the
/// order takes its turn.
proof fn lemma_bfs_next(
    states: Seq<State>,
    words: Seq<Seq<u8>>,
    pats: Seq<Seq<u8>>,
    order: Seq<int>,
    pos: Seq<int>,
    head: int,
)
    requires
        bfs_inv(states, words, pats, order, pos, head, 256),
        head < order.len(),
    ensures
        bfs_inv(states, words, pats, order, pos, head + 1, 0),
{
    assert forall|j: int| 0 <= j < order.len() implies #[trigger] near(
        words,
        order,
        head + 1,
        j,
    ) by {
        assert(near(words, order, head, j));
        assert(by_depth(words, order, head - 1, head));
    }
    assert forall|x: int| 2 <= x < states.len() implies (pos[x] >= 0) == #[trigger] handed_out(
        words,
        pos,
        head + 1,
        0,
        x,
    ) by {
        assert((pos[x] >= 0) == handed_out(words, pos, head, 256, x));
    }
}

/// Every state that is no deeper than the one handing out its children is
/// in the order.
proof fn lemma_bfs_shallow(
    states: Seq<State>,
    words: Seq<Seq<u8>>,
    pats: Seq<Seq<u8>>,
    order: Seq<int>,
    pos: Seq<int>,
    head: int,
    c: int,
    x: int,
)
    requires
        bfs_inv(states, words, pats, order, pos, head, c),
        1 <= x < states.len(),
        words[x].len() <= words[order[head - 1]].len(),
    ensures
        pos[x] >= 0,
        resolved(states, words, pats, x),
    decreases words[x].len(),
{
    assert(status_ok(states, words, pats, pos, x));
    if x == 1 {
        assert(placed(order, pos, states.len(), 0));
    } else {
        lemma_parent(states, words, pats, x);
        let p = parent(words, x);
        lemma_bfs_shallow(states, words, pats, order, pos, head, c, p);
        assert(place_ok(order, pos, p));
        if pos[p] >= head - 1 {
            assert(by_depth(words, order, head - 1, pos[p]));
        }
        assert((pos[x] >= 0) == handed_out(words, pos, head, c, x));
    }
}

/// When the queue is empty, every state is in the order.
proof fn lemma_bfs_all_found(
    states: Seq<State>,
    words: Seq<Seq<u8>>,
    pats: Seq<Seq<u8>>,
    order: Seq<int>,
    pos: Seq<int>,
    x: int,
)
    requires
        bfs_inv(states, words, pats, order, pos, order.len() as int, 256),
        1 <= x < states.len(),
    ensures
        pos[x] >= 0,
    decreases words[x].len(),
{
    if x == 1 {
        assert(placed(order, pos, states.len(), 0));
    } else {
        lemma_parent(states, words, pats, x);
        let p = parent(words, x);
        lemma_bfs_all_found(states, words, pats, order, pos, p);
        assert(place_ok(order, pos, p));
        assert((pos[x] >= 0) == handed_out(words, pos, order.len() as int, 256, x));
    }
}

/// When the queue is empty, the automaton is finished.
proof fn lemma_bfs_done(
    states: Seq<State>,
    words: Seq<Seq<u8>>,
    pats: Seq<Seq<u8>>,
    order: Seq<int>,
    pos: Seq<int>,
)
    requires
        bfs_inv(states, words, pats, order, pos, order.len() as int, 256),
    ensures
        is_automaton_of(states, words, pats),
{
    assert forall|s: int| 1 <= s < states.len() implies #[trigger] resolved(
        states,
        words,
        pats,
        s,
    ) by {
        lemma_bfs_all_found(states, words, pats, order, pos, s);
        assert(status_ok(states, words, pats, pos, s));
    }
}

/// The order never holds more states than there are.
proof fn lemma_bfs_bound(
    states: Seq<State>,
    words: Seq<Seq<u8>>,
    pats: Seq<Seq<u8>>,
    order: Seq<int>,
    pos: Seq<int>,
    head: int,
    c: int,
)
    requires
        bfs_inv(states, words, pats, order, pos, head, c),
    ensures
        order.len() < states.len(),
{
    let n = states.len() as int;
    assert forall|i: int, j: int|
        0 <= i < order.len() && 0 <= j < order.len() && i != j implies order[i] != order[j] by {
        assert(placed(order, pos, states.len(), i));
        assert(placed(order, pos, states.len(), j));
    }
    assert(order.no_duplicates());
    order.unique_seq_to_set();
    lemma_int_range(1, n);
    assert forall|x: int| order.to_set().contains(x) implies set_int_range(1, n).contains(x) by {
        let j = choose|j: int| 0 <= j < order.len() && order[j] == x;
        assert(placed(order, pos, states.len(), j));
    }
    lemma_len_subset(order.to_set(), set_int_range(1, n));
}

/// A state one level below the root is finished as the trie builder left
/// it.
proof fn lemma_seed_resolved(states: Seq<State>, words: Seq<Seq<u8>>, pats: Seq<Seq<u8>>, u: int)
    requires
        is_trie_of(states, words, pats),
        2 <= u < states.len(),
        words[u].len() == 1,
        fresh(states, words, pats, pats.len(), u),
    ensures
        resolved(states, words, pats, u),
{
    let w = words[u];
    assert(words[u].len() > 0 && is_node(pats, words[u]));
    assert(tail(w, 1) =~= w);
    assert(seq![w.last()] =~= w);
    assert(tail(w, 0) =~= words[1]);
    assert(report_upto(pats, w, 0) =~= Seq::<usize>::empty());
    assert(report(pats, w) =~= ids_of(pats, w));
}

/// A deeper state is finished once it fails to the state of the longest
/// proper suffix of its word, and has that state's output after its own.
proof fn lemma_child_resolved(
    old: Seq<State>,
    new: Seq<State>,
    words: Seq<Seq<u8>>,
    pats: Seq<Seq<u8>>,
    u: int,
    ufail: int,
)
    requires
        new.len() == old.len(),
        2 <= u < old.len(),
        1 <= ufail < old.len(),
        words[u].len() >= 2,
        fresh(old, words, pats, pats.len(), u),
        old[ufail].out@ == report(pats, words[ufail]),
        is_longest_suffix_node(pats, words[u], words[ufail], words[u].len() - 1),
        new[u].fail == ufail,
        new[u].out@ == old[u].out@ + old[ufail].out@,
    ensures
        resolved(new, words, pats, u),
{
    let w = words[u];
    assert(tail(w, w.len() as int) =~= w);
    lemma_report_of_longest_suffix_node(pats, w, words[ufail], w.len() - 1);
}

impl Automaton {
    /// Sets the failure link of every state and appends to its output the
    /// output of the state that it fails to.
    pub(super) fn fill(self) -> (a: Automaton)
        requires
            self.is_raw(),
        ensures
            a.wf(),
            a.patterns() == self.patterns(),
    {
        let mut aut = self;
        let ghost strings = aut.patterns();
        let ghost pats = encoded(strings);
        let ghost words = choose|words: Seq<Seq<u8>>| is_raw_trie_of(aut.states@, words, pats);
        let ghost n = aut.states@.len();
        let ghost mut order: Seq<int> = seq![1int];
        let ghost mut pos: Seq<int> = Seq::new(n, |x: int| if x == 1 { 0int } else { -1int });
        let ghost mut head: int = 1;
        let mut q: VecDeque<usize> = VecDeque::new();
        proof {
            lemma_bfs_start(aut.states@, words, pats);
        }
        for c in 0..256usize
            invariant
                aut.patterns() == strings,
                aut.states@.len() == n,
                bfs_inv(aut.states@, words, pats, order, pos, 1, c as int),
                queue_is(q@, order, 1),
        {
            proof {
                assert(aut.states@[1].goto@.len() == 256);
                assert(aut.states@[1].goto@[c as u8 as int] != 0);
            }
            let si = aut.states[ROOT].goto[c];
            if si != ROOT {
                q.push_front(si);
                proof {
                    lemma_not_yet_found(
                        aut.states@,
                        words,
                        pats,
                        order,
                        pos,
                        1,
                        c as int,
                        si as int,
                    );
                    assert(words[1].push(c as u8).len() == 1);
                    lemma_seed_resolved(aut.states@, words, pats, si as int);
                    lemma_bfs_enqueue(
                        aut.states@,
                        aut.states@,
                        words,
                        pats,
                        order,
                        pos,
                        1,
                        c as int,
                        si as int,
                    );
                    pos = pos.update(si as int, order.len() as int);
                    order = order.push(si as int);
                }
            } else {
                proof {
                    lemma_bfs_skip(aut.states@, words, pats, order, pos, 1, c as int);
                }
            }
        }
        loop
            invariant
                aut.patterns() == strings,
                aut.states@.len() == n,
                bfs_inv(aut.states@, words, pats, order, pos, head, 256),
                queue_is(q@, order, head),
            ensures
                head == order.len(),
            decreases n - head,
        {
            proof {
                lemma_bfs_bound(aut.states@, words, pats, order, pos, head, 256);
            }
            match q.pop_back() {
                None => {
                    break ;
                },
                Some(si) => {
                    proof {
                        assert(si == order[head]);
                        lemma_bfs_next(aut.states@, words, pats, order, pos, head);
                        head = head + 1;
                        assert(placed(order, pos, n, head - 1));
                    }
                    for c in 0..256usize
                        invariant
                            aut.patterns() == strings,
                            aut.states@.len() == n,
                            2 <= head <= order.len(),
                            si == order[head - 1],
                            1 <= si < n,
                            bfs_inv(aut.states@, words, pats, order, pos, head, c as int),
                            queue_is(q@, order, head),
                    {
                        proof {
                            assert(aut.states@[si as int].goto@.len() == 256);
                            lemma_bfs_shallow(
                                aut.states@,
                                words,
                                pats,
                                order,
                                pos,
                                head,
                                c as int,
                                si as int,
                            );
                            assert(placed(order, pos, n, 0));
                            assert(placed(order, pos, n, head - 1));
                            assert(si != 1);
                        }
                        let u = aut.states[si].goto[c];
                        if u != NO_STATE {
                            q.push_front(u);
                            let ghost b = c as u8;
                            let ghost w = words[si as int];
                            proof {
                                lemma_not_yet_found(
                                    aut.states@,
                                    words,
                                    pats,
                                    order,
                                    pos,
                                    head,
                                    c as int,
                                    u as int,
                                );
                                lemma_candidate_start(
                                    pats,
                                    w,
                                    words[aut.states@[si as int].fail as int],
                                    b,
                                    w.len() - 1,
                                );
                            }
                            let mut v = aut.states[si].fail;
                            while aut.states[v].goto[c] == NO_STATE
                                invariant
                                    aut.states@.len() == n,
                                    c < 256,
                                    b == c as u8,
                                    2 <= head <= order.len(),
                                    si == order[head - 1],
                                    w == words[si as int],
                                    bfs_inv(aut.states@, words, pats, order, pos, head, c as int),
                                    1 <= v < n,
                                    aut.states@[v as int].goto@.len() == 256,
                                    is_candidate(pats, w, words[v as int], b, w.len() - 1),
                                decreases words[v as int].len(),
                            {
                                proof {
                                    assert(aut.states@[1].goto@[b as int] != 0);
                                    lemma_bfs_shallow(
                                        aut.states@,
                                        words,
                                        pats,
                                        order,
                                        pos,
                                        head,
                                        c as int,
                                        v as int,
                                    );
                                    assert(edge_ok(aut.states@, words, pats, v as int, b));
                                    lemma_candidate_step(
                                        pats,
                                        w,
                                        words[v as int],
                                        words[aut.states@[v as int].fail as int],
                                        b,
                                        w.len() - 1,
                                    );
                                }
                                v = aut.states[v].fail;
                                proof {
                                    assert(aut.states@[v as int].goto@.len() == 256);
                                }
                            }
                            let ufail = aut.states[v].goto[c];
                            proof {
                                assert(edge_ok(aut.states@, words, pats, v as int, b));
                                assert(w.push(b) == words[u as int]);
                                if edge(aut.states@, v as int, b) == 0 {
                                    lemma_candidate_none(pats, w, words[v as int], b, w.len() - 1);
                                } else {
                                    lemma_candidate_found(pats, w, words[v as int], b, w.len() - 1);
                                }
                                lemma_bfs_shallow(
                                    aut.states@,
                                    words,
                                    pats,
                                    order,
                                    pos,
                                    head,
                                    c as int,
                                    ufail as int,
                                );
                            }
                            let ghost old_states = aut.states@;
                            aut.states[u].fail = ufail;
                            let mut ufail_out = aut.states[ufail].out.clone();
                            aut.states[u].out.append(&mut ufail_out);
                            proof {
                                lemma_child_resolved(
                                    old_states,
                                    aut.states@,
                                    words,
                                    pats,
                                    u as int,
                                    ufail as int,
                                );
                                lemma_bfs_enqueue(
                                    old_states,
                                    aut.states@,
                                    words,
                                    pats,
                                    order,
                                    pos,
                                    head,
                                    c as int,
                                    u as int,
                                );
                                pos = pos.update(u as int, order.len() as int);
                                order = order.push(u as int);
                            }
                        } else {
                            proof {
                                lemma_bfs_skip(
                                    aut.states@,
                                    words,
                                    pats,
                                    order,
                                    pos,
                                    head,
                                    c as int,
                                );
                            }
                        }
                    }
                },
            }
        }
        proof {
            lemma_bfs_done(aut.states@, words, pats, order, pos);
            assert(is_automaton_of(aut.states@, words, aut.pattern_bytes()));
        }
        aut
    }
}

} // verus!
