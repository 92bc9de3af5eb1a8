//! What matching means, stated over byte sequences alone.
//!
//! Patterns are a sequence of byte strings; a pattern's identifier is its
//! position in that sequence. Nothing here mentions states or links: the
//! automaton is held to these definitions, not the other way round.

use vstd::prelude::*;
use vstd::utf8::encode_utf8;

verus! {

/// The strings as bytes: the UTF-8 encoding of each.
pub open spec fn encoded(strings: Seq<Seq<char>>) -> Seq<Seq<u8>> {
    Seq::new(strings.len(), |i: int| encode_utf8(strings[i]))
}

/// The last `len` bytes of `t`.
pub open spec fn tail(t: Seq<u8>, len: int) -> Seq<u8>
    recommends
        0 <= len <= t.len(),
{
    t.subrange(t.len() - len, t.len() as int)
}

/// Whether `w` is a word of the trie of `pats`: the empty word, or the
/// beginning of some pattern.
pub open spec fn is_node(pats: Seq<Seq<u8>>, w: Seq<u8>) -> bool {
    w.len() == 0 || exists|i: int| 0 <= i < pats.len() && w.is_prefix_of(#[trigger] pats[i])
}

/// The identifiers below `n` of the patterns equal to `w`, in increasing order.
pub open spec fn ids_below(pats: Seq<Seq<u8>>, w: Seq<u8>, n: nat) -> Seq<usize>
    recommends
        n <= pats.len(),
    decreases n,
{
    if n == 0 {
        Seq::empty()
    } else {
        let rest = ids_below(pats, w, (n - 1) as nat);
        if pats[n - 1] == w {
            rest.push((n - 1) as usize)
        } else {
            rest
        }
    }
}

/// The identifiers of the patterns equal to `w`, in increasing order.
pub open spec fn ids_of(pats: Seq<Seq<u8>>, w: Seq<u8>) -> Seq<usize> {
    ids_below(pats, w, pats.len())
}

/// The identifiers reported for the suffixes of `t` of length at most `len`,
/// longest suffix first.
///
/// Every pattern equal to a non-empty suffix is reported. The empty patterns
/// come last, and only where the last byte of `t` begins no pattern.
pub open spec fn report_upto(pats: Seq<Seq<u8>>, t: Seq<u8>, len: nat) -> Seq<usize>
    recommends
        len <= t.len(),
    decreases len,
{
    if len == 0 {
        if t.len() > 0 && is_node(pats, seq![t.last()]) {
            Seq::empty()
        } else {
            ids_of(pats, Seq::empty())
        }
    } else {
        ids_of(pats, tail(t, len as int)) + report_upto(pats, t, (len - 1) as nat)
    }
}

/// The identifiers that a scan reports when it has consumed exactly `t`.
pub open spec fn report(pats: Seq<Seq<u8>>, t: Seq<u8>) -> Seq<usize> {
    report_upto(pats, t, t.len())
}

/// The first non-empty report among the prefixes of `text` of length `k` or
/// more, shortest prefix first; empty if there is none.
pub open spec fn first_report_from(pats: Seq<Seq<u8>>, text: Seq<u8>, k: nat) -> Seq<usize>
    decreases text.len() + 1 - k,
{
    if k > text.len() {
        Seq::empty()
    } else if report(pats, text.take(k as int)).len() > 0 {
        report(pats, text.take(k as int))
    } else {
        first_report_from(pats, text, k + 1)
    }
}

/// What a scan of `text` returns: the report at the first position, after at
/// least one byte, where the report is not empty.
pub open spec fn first_report(pats: Seq<Seq<u8>>, text: Seq<u8>) -> Seq<usize> {
    first_report_from(pats, text, 1)
}

/// Whether `w` is the longest suffix of `t`, among those of length at most
/// `max`, that is a word of the trie.
pub open spec fn is_longest_suffix_node(
    pats: Seq<Seq<u8>>,
    t: Seq<u8>,
    w: Seq<u8>,
    max: int,
) -> bool {
    &&& w.len() <= max <= t.len()
    &&& w == tail(t, w.len() as int)
    &&& is_node(pats, w)
    &&& forall|l: int| w.len() < l <= max ==> !is_node(pats, #[trigger] tail(t, l))
}

/// Where a search for the longest suffix node of `t.push(b)` stands: `w` is
/// a suffix node of `t`, and no longer suffix of `t`, up to length `max`,
/// can be continued by `b`.
pub open spec fn is_candidate(pats: Seq<Seq<u8>>, t: Seq<u8>, w: Seq<u8>, b: u8, max: int) -> bool {
    &&& w.len() <= max <= t.len()
    &&& w == tail(t, w.len() as int)
    &&& is_node(pats, w)
    &&& forall|l: int| w.len() < l <= max ==> !is_node(pats, #[trigger] tail(t, l).push(b))
}

/// A beginning of a trie word is a trie word.
pub proof fn lemma_node_prefix(pats: Seq<Seq<u8>>, w: Seq<u8>, x: Seq<u8>)
    requires
        is_node(pats, x),
        w.is_prefix_of(x),
    ensures
        is_node(pats, w),
{
    if w.len() > 0 {
        let i = choose|i: int| 0 <= i < pats.len() && x.is_prefix_of(#[trigger] pats[i]);
        assert(w =~= pats[i].subrange(0, w.len() as int));
    }
}

/// Where none of the first `n` patterns equals `w`, no identifier below `n`
/// is listed for `w`.
pub proof fn lemma_ids_below_empty(pats: Seq<Seq<u8>>, w: Seq<u8>, n: nat)
    requires
        n <= pats.len(),
        forall|i: int| 0 <= i < n ==> #[trigger] pats[i] != w,
    ensures
        ids_below(pats, w, n) == Seq::<usize>::empty(),
    decreases n,
{
    if n > 0 {
        lemma_ids_below_empty(pats, w, (n - 1) as nat);
        assert(pats[n - 1] != w);
    }
}

/// No pattern equals a word that is not in the trie.
pub proof fn lemma_ids_of_non_node(pats: Seq<Seq<u8>>, w: Seq<u8>)
    requires
        !is_node(pats, w),
    ensures
        ids_of(pats, w) == Seq::<usize>::empty(),
{
    assert forall|i: int| 0 <= i < pats.len() implies #[trigger] pats[i] != w by {
        if pats[i] == w {
            assert(w.is_prefix_of(pats[i]));
        }
    }
    lemma_ids_below_empty(pats, w, pats.len());
}

/// The search for the longest suffix node of `t.push(b)` may start from the
/// longest suffix node of `t`.
pub proof fn lemma_candidate_start(pats: Seq<Seq<u8>>, t: Seq<u8>, w: Seq<u8>, b: u8, max: int)
    requires
        is_longest_suffix_node(pats, t, w, max),
    ensures
        is_candidate(pats, t, w, b, max),
{
    assert forall|l: int| w.len() < l <= max implies !is_node(
        pats,
        #[trigger] tail(t, l).push(b),
    ) by {
        if is_node(pats, tail(t, l).push(b)) {
            assert(tail(t, l) =~= tail(t, l).push(b).subrange(0, l));
            lemma_node_prefix(pats, tail(t, l), tail(t, l).push(b));
        }
    }
}

/// Where the candidate `w` cannot be continued by `b`, the search goes on
/// from the longest proper suffix node of `w`.
pub proof fn lemma_candidate_step(
    pats: Seq<Seq<u8>>,
    t: Seq<u8>,
    w: Seq<u8>,
    f: Seq<u8>,
    b: u8,
    max: int,
)
    requires
        is_candidate(pats, t, w, b, max),
        !is_node(pats, w.push(b)),
        w.len() > 0,
        is_longest_suffix_node(pats, w, f, w.len() - 1),
    ensures
        is_candidate(pats, t, f, b, max),
{
    assert(f =~= tail(t, f.len() as int));
    assert forall|l: int| f.len() < l <= max implies !is_node(
        pats,
        #[trigger] tail(t, l).push(b),
    ) by {
        if l < w.len() {
            assert(tail(t, l) =~= tail(w, l));
            if is_node(pats, tail(t, l).push(b)) {
                assert(tail(t, l) =~= tail(t, l).push(b).subrange(0, l));
                lemma_node_prefix(pats, tail(t, l), tail(t, l).push(b));
            }
        } else if l == w.len() {
            assert(tail(t, l) =~= w);
        }
    }
}

/// Where the candidate `w` can be continued by `b`, the search ends there.
pub proof fn lemma_candidate_found(pats: Seq<Seq<u8>>, t: Seq<u8>, w: Seq<u8>, b: u8, max: int)
    requires
        is_candidate(pats, t, w, b, max),
        is_node(pats, w.push(b)),
    ensures
        is_longest_suffix_node(pats, t.push(b), w.push(b), max + 1),
{
    let t2 = t.push(b);
    let w2 = w.push(b);
    assert(w2 =~= tail(t2, w2.len() as int));
    assert forall|l: int| w2.len() < l <= max + 1 implies !is_node(
        pats,
        #[trigger] tail(t2, l),
    ) by {
        assert(tail(t2, l) =~= tail(t, l - 1).push(b));
    }
}

/// Where not even the empty word can be continued by `b`, the search ends
/// at the empty word.
pub proof fn lemma_candidate_none(pats: Seq<Seq<u8>>, t: Seq<u8>, w: Seq<u8>, b: u8, max: int)
    requires
        is_candidate(pats, t, w, b, max),
        w.len() == 0,
        !is_node(pats, w.push(b)),
    ensures
        is_longest_suffix_node(pats, t.push(b), w, max + 1),
{
    let t2 = t.push(b);
    assert(w =~= tail(t2, 0));
    assert forall|l: int| 0 < l <= max + 1 implies !is_node(pats, #[trigger] tail(t2, l)) by {
        assert(tail(t2, l) =~= tail(t, l - 1).push(b));
        if l == 1 {
            assert(tail(t, 0) =~= w);
        }
    }
}

/// The suffixes of `t` that are longer than its longest suffix node add
/// nothing to the report: what is reported for `t` is what is reported for
/// that node.
pub proof fn lemma_report_of_longest_suffix_node(
    pats: Seq<Seq<u8>>,
    t: Seq<u8>,
    w: Seq<u8>,
    max: int,
)
    requires
        is_longest_suffix_node(pats, t, w, max),
        1 <= max,
    ensures
        report_upto(pats, t, max as nat) == report(pats, w),
    decreases max,
{
    if max > w.len() {
        lemma_ids_of_non_node(pats, tail(t, max));
        if max - 1 >= 1 {
            lemma_report_of_longest_suffix_node(pats, t, w, max - 1);
        } else {
            assert(w.len() == 0);
            assert(tail(t, 1) =~= seq![t.last()]);
        }
        assert(report_upto(pats, t, max as nat) =~= report_upto(pats, t, (max - 1) as nat));
    } else {
        lemma_report_upto_of_suffix(pats, t, w, max as nat);
    }
}

/// The report for suffixes up to `len` looks at the last `len` bytes only.
pub proof fn lemma_report_upto_of_suffix(pats: Seq<Seq<u8>>, t: Seq<u8>, w: Seq<u8>, len: nat)
    requires
        1 <= len <= w.len() <= t.len(),
        w == tail(t, w.len() as int),
    ensures
        report_upto(pats, t, len) == report_upto(pats, w, len),
    decreases len,
{
    assert(tail(t, len as int) =~= tail(w, len as int));
    assert(t.last() == w.last());
    if len > 1 {
        lemma_report_upto_of_suffix(pats, t, w, (len - 1) as nat);
    } else {
        assert(report_upto(pats, t, 0) == report_upto(pats, w, 0));
    }
}

} // verus!
