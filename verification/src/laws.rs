//! What holds of every scan, proved from the definitions of [`crate::model`].
//!
//! [`Automaton::find`] returns `first_report` of its patterns and its text, so
//! each statement here about `first_report` is a statement about what `find`
//! returns. The last part of the file says so of `find` itself.

use vstd::prelude::*;
use vstd::string::StringSliceAdditionalSpecFns;
use vstd::utf8::encode_utf8_first_scalar;
use crate::automaton::Automaton;
use crate::model::{
    first_report, first_report_from, ids_below, ids_of, is_node, lemma_ids_below_empty, report,
    report_upto, tail,
};

verus! {

/// Whether `p` occurs in `text` as a contiguous part.
pub open spec fn occurs_in(p: Seq<u8>, text: Seq<u8>) -> bool {
    exists|a: int, b: int| 0 <= a <= b <= text.len() && #[trigger] text.subrange(a, b) == p
}

/// Whether pattern `i` is among those reported for the suffixes of `t` of
/// length at most `len`: it is such a suffix, and if it is empty, the last
/// byte of `t` begins no pattern.
pub open spec fn is_reported_upto(pats: Seq<Seq<u8>>, t: Seq<u8>, len: int, i: int) -> bool {
    &&& 0 <= i < pats.len()
    &&& pats[i].len() <= len
    &&& pats[i] == tail(t, pats[i].len() as int)
    &&& (pats[i].len() > 0 || t.len() == 0 || !is_node(pats, seq![t.last()]))
}

/// Whether pattern `i` is reported when a scan has consumed exactly `t`.
pub open spec fn is_reported(pats: Seq<Seq<u8>>, t: Seq<u8>, i: int) -> bool {
    is_reported_upto(pats, t, t.len() as int, i)
}

/// A concatenation holds what either part holds.
proof fn lemma_concat_contains(a: Seq<usize>, b: Seq<usize>, x: usize)
    ensures
        (a + b).contains(x) <==> a.contains(x) || b.contains(x),
{
    let ab = a + b;
    if ab.contains(x) {
        let k = choose|k: int| 0 <= k < ab.len() && ab[k] == x;
        if k < a.len() {
            assert(a[k] == x);
        } else {
            assert(b[k - a.len()] == x);
        }
    }
    if a.contains(x) {
        let k = choose|k: int| 0 <= k < a.len() && a[k] == x;
        assert(ab[k] == x);
    }
    if b.contains(x) {
        let k = choose|k: int| 0 <= k < b.len() && b[k] == x;
        assert(ab[k + a.len()] == x);
    }
}

/// The identifiers below `n` of the patterns equal to `w` are just those:
/// `i` is among them exactly if `i < n` and pattern `i` equals `w`.
pub proof fn lemma_ids_below_contains(pats: Seq<Seq<u8>>, w: Seq<u8>, n: nat, i: usize)
    requires
        n <= pats.len() <= usize::MAX,
    ensures
        ids_below(pats, w, n).contains(i) <==> i < n && pats[i as int] == w,
    decreases n,
{
    if n > 0 {
        lemma_ids_below_contains(pats, w, (n - 1) as nat, i);
        if pats[n - 1] == w {
            let rest = ids_below(pats, w, (n - 1) as nat);
            assert(ids_below(pats, w, n) =~= rest + seq![(n - 1) as usize]);
            lemma_concat_contains(rest, seq![(n - 1) as usize], i);
            assert(seq![(n - 1) as usize][0] == (n - 1) as usize);
        }
    }
}

/// No identifier occurs twice among those of the patterns equal to `w`.
pub proof fn lemma_ids_below_no_duplicates(pats: Seq<Seq<u8>>, w: Seq<u8>, n: nat)
    requires
        n <= pats.len() <= usize::MAX,
    ensures
        ids_below(pats, w, n).no_duplicates(),
    decreases n,
{
    if n > 0 {
        lemma_ids_below_no_duplicates(pats, w, (n - 1) as nat);
        if pats[n - 1] == w {
            let rest = ids_below(pats, w, (n - 1) as nat);
            assert forall|k: int| 0 <= k < rest.len() implies rest[k] != (n - 1) as usize by {
                lemma_ids_below_contains(pats, w, (n - 1) as nat, rest[k]);
            }
        }
    }
}

/// The report for the suffixes of `t` up to length `len` holds pattern `i`
/// exactly if `is_reported_upto` says so.
pub proof fn lemma_report_upto_contains(pats: Seq<Seq<u8>>, t: Seq<u8>, len: nat, i: usize)
    requires
        len <= t.len(),
        pats.len() <= usize::MAX,
    ensures
        report_upto(pats, t, len).contains(i) <==> is_reported_upto(pats, t, len as int, i as int),
    decreases len,
{
    if len == 0 {
        assert(tail(t, 0) =~= Seq::<u8>::empty());
        lemma_ids_below_contains(pats, Seq::empty(), pats.len(), i);
        if i < pats.len() && pats[i as int].len() == 0 {
            assert(pats[i as int] =~= Seq::<u8>::empty());
        }
    } else {
        let here = tail(t, len as int);
        lemma_report_upto_contains(pats, t, (len - 1) as nat, i);
        lemma_ids_below_contains(pats, here, pats.len(), i);
        lemma_concat_contains(ids_of(pats, here), report_upto(pats, t, (len - 1) as nat), i);
    }
}

/// A scan that has consumed `t` reports pattern `i` exactly if the pattern
/// is a suffix of `t` and, where it is empty, the last byte of `t` begins
/// no pattern.
pub proof fn lemma_report_contains(pats: Seq<Seq<u8>>, t: Seq<u8>, i: usize)
    requires
        pats.len() <= usize::MAX,
    ensures
        report(pats, t).contains(i) <==> is_reported(pats, t, i as int),
{
    lemma_report_upto_contains(pats, t, t.len(), i);
}

/// No identifier is reported twice for the suffixes of `t` up to length
/// `len`.
pub proof fn lemma_report_upto_no_duplicates(pats: Seq<Seq<u8>>, t: Seq<u8>, len: nat)
    requires
        len <= t.len(),
        pats.len() <= usize::MAX,
    ensures
        report_upto(pats, t, len).no_duplicates(),
    decreases len,
{
    if len == 0 {
        lemma_ids_below_no_duplicates(pats, Seq::empty(), pats.len());
    } else {
        let here = ids_of(pats, tail(t, len as int));
        let rest = report_upto(pats, t, (len - 1) as nat);
        lemma_ids_below_no_duplicates(pats, tail(t, len as int), pats.len());
        lemma_report_upto_no_duplicates(pats, t, (len - 1) as nat);
        assert forall|a: int, b: int| 0 <= a < here.len() && 0 <= b < rest.len() implies here[a]
            != rest[b] by {
            lemma_ids_below_contains(pats, tail(t, len as int), pats.len(), here[a]);
            lemma_report_upto_contains(pats, t, (len - 1) as nat, rest[b]);
        }
        assert forall|a: int, b: int|
            0 <= a < (here + rest).len() && 0 <= b < (here + rest).len() && a
                != b implies (here + rest)[a] != (here + rest)[b] by {
            if a < here.len() && b >= here.len() {
                assert(here[a] != rest[b - here.len()]);
            } else if b < here.len() && a >= here.len() {
                assert(here[b] != rest[a - here.len()]);
            }
        }
    }
}

/// No identifier is reported twice.
pub proof fn lemma_report_no_duplicates(pats: Seq<Seq<u8>>, t: Seq<u8>)
    requires
        pats.len() <= usize::MAX,
    ensures
        report(pats, t).no_duplicates(),
{
    lemma_report_upto_no_duplicates(pats, t, t.len());
}

/// The first report from position `from` on is the report at some position
/// `k >= from` before which every report is empty, and is empty only if all
/// reports from `from` on are.
pub proof fn lemma_first_report_from(pats: Seq<Seq<u8>>, text: Seq<u8>, from: nat)
    ensures
        first_report_from(pats, text, from).len() == 0 ==> forall|k: int|
            from <= k <= text.len() ==> (#[trigger] report(pats, text.take(k))).len() == 0,
        first_report_from(pats, text, from).len() > 0 ==> exists|k: int|
            from <= k <= text.len() && first_report_from(pats, text, from) == #[trigger] report(
                pats,
                text.take(k),
            ) && forall|j: int|
                from <= j < k ==> (#[trigger] report(pats, text.take(j))).len() == 0,
    decreases text.len() + 1 - from,
{
    if from <= text.len() {
        if report(pats, text.take(from as int)).len() > 0 {
            assert(first_report_from(pats, text, from) == report(pats, text.take(from as int)));
        } else {
            lemma_first_report_from(pats, text, from + 1);
            let r = first_report_from(pats, text, from + 1);
            assert(first_report_from(pats, text, from) == r);
            if r.len() > 0 {
                let k = choose|k: int|
                    from + 1 <= k <= text.len() && r == #[trigger] report(pats, text.take(k))
                        && forall|j: int|
                        from + 1 <= j < k ==> (#[trigger] report(pats, text.take(j))).len() == 0;
                assert forall|j: int| from <= j < k implies (#[trigger] report(
                    pats,
                    text.take(j),
                )).len() == 0 by {}
            }
        }
    }
}

/// A scan stops at the first position where anything is reported: what it
/// returns is the report at a position `k >= 1` before which every report
/// is empty; it returns nothing only if nothing is reported anywhere.
pub proof fn lemma_first_report(pats: Seq<Seq<u8>>, text: Seq<u8>)
    ensures
        first_report(pats, text).len() == 0 ==> forall|k: int|
            1 <= k <= text.len() ==> (#[trigger] report(pats, text.take(k))).len() == 0,
        first_report(pats, text).len() > 0 ==> exists|k: int|
            1 <= k <= text.len() && first_report(pats, text) == #[trigger] report(
                pats,
                text.take(k),
            ) && forall|j: int| 1 <= j < k ==> (#[trigger] report(pats, text.take(j))).len() == 0,
{
    lemma_first_report_from(pats, text, 1);
}

/// Where no pattern occurs in `t`, nothing is reported for the suffixes of
/// `t`.
proof fn lemma_report_upto_absent(pats: Seq<Seq<u8>>, t: Seq<u8>, len: nat)
    requires
        len <= t.len(),
        forall|i: int| 0 <= i < pats.len() ==> !occurs_in(#[trigger] pats[i], t),
    ensures
        report_upto(pats, t, len) == Seq::<usize>::empty(),
    decreases len,
{
    let w = tail(t, len as int);
    assert forall|i: int| 0 <= i < pats.len() implies #[trigger] pats[i] != w by {
        assert(!occurs_in(pats[i], t));
        assert(t.subrange(t.len() - len, t.len() as int) == w);
    }
    lemma_ids_below_empty(pats, w, pats.len());
    if len == 0 {
        assert(w =~= Seq::<u8>::empty());
    } else {
        lemma_report_upto_absent(pats, t, (len - 1) as nat);
    }
}

/// Where no pattern occurs in the text, nothing is reported from `from`
/// on.
proof fn lemma_first_report_from_absent(pats: Seq<Seq<u8>>, text: Seq<u8>, from: nat)
    requires
        forall|i: int| 0 <= i < pats.len() ==> !occurs_in(#[trigger] pats[i], text),
    ensures
        first_report_from(pats, text, from) == Seq::<usize>::empty(),
    decreases text.len() + 1 - from,
{
    if from <= text.len() {
        let t = text.take(from as int);
        assert forall|i: int| 0 <= i < pats.len() implies !occurs_in(#[trigger] pats[i], t) by {
            if occurs_in(pats[i], t) {
                let (a, b) = choose|a: int, b: int|
                    0 <= a <= b <= t.len() && #[trigger] t.subrange(a, b) == pats[i];
                assert(text.subrange(a, b) =~= t.subrange(a, b));
            }
        }
        lemma_report_upto_absent(pats, t, t.len());
        lemma_first_report_from_absent(pats, text, from + 1);
    }
}

/// A scan of a text in which no pattern occurs returns nothing.
pub proof fn lemma_no_occurrence_no_report(pats: Seq<Seq<u8>>, text: Seq<u8>)
    requires
        forall|i: int| 0 <= i < pats.len() ==> !occurs_in(#[trigger] pats[i], text),
    ensures
        first_report(pats, text) == Seq::<usize>::empty(),
{
    lemma_first_report_from_absent(pats, text, 1);
}

/// Where every pattern is longer than `len`, nothing is reported for the
/// suffixes of `t` up to length `len`.
proof fn lemma_report_upto_short(pats: Seq<Seq<u8>>, t: Seq<u8>, len: nat)
    requires
        len <= t.len(),
        forall|i: int| 0 <= i < pats.len() ==> (#[trigger] pats[i]).len() > len,
    ensures
        report_upto(pats, t, len) == Seq::<usize>::empty(),
    decreases len,
{
    let w = tail(t, len as int);
    assert forall|i: int| 0 <= i < pats.len() implies #[trigger] pats[i] != w by {
        assert(pats[i].len() > len);
    }
    lemma_ids_below_empty(pats, w, pats.len());
    if len == 0 {
        assert(w =~= Seq::<u8>::empty());
    } else {
        lemma_report_upto_short(pats, t, (len - 1) as nat);
    }
}

/// With `p` as the one pattern, a scan of `p` reports nothing before its
/// end.
proof fn lemma_single_pattern_from(p: Seq<u8>, from: nat)
    requires
        1 <= from <= p.len(),
    ensures
        first_report_from(seq![p], p, from) == seq![0usize],
    decreases p.len() - from,
{
    let pats = seq![p];
    let t = p.take(from as int);
    assert forall|i: int| 0 <= i < pats.len() implies (#[trigger] pats[i]).len() > from - 1 by {}
    if from < p.len() {
        lemma_report_upto_short(pats, t, from);
        lemma_single_pattern_from(p, from + 1);
    } else {
        assert(t =~= p);
        assert(tail(p, p.len() as int) =~= p);
        lemma_report_upto_short(pats, p, (from - 1) as nat);
        assert(ids_below(pats, p, 0) =~= Seq::<usize>::empty());
        assert(ids_of(pats, p) =~= seq![0usize]);
        assert(report(pats, p) =~= seq![0usize]);
    }
}

/// With a non-empty `p` as the one pattern, a scan of the text `p` returns
/// the identifier of `p` and nothing else.
pub proof fn lemma_single_pattern(p: Seq<u8>)
    requires
        p.len() > 0,
    ensures
        first_report(seq![p], p) == seq![0usize],
{
    lemma_single_pattern_from(p, 1);
}

/// Suffix inheritance: where pattern `i` ends a text, it is reported there
/// together with every non-empty pattern `j` that is a suffix of it.
pub proof fn lemma_suffix_inheritance(pats: Seq<Seq<u8>>, t: Seq<u8>, i: usize, j: usize)
    requires
        pats.len() <= usize::MAX,
        i < pats.len(),
        j < pats.len(),
        pats[i as int].is_suffix_of(t),
        pats[j as int].is_suffix_of(pats[i as int]),
        pats[j as int].len() > 0,
    ensures
        report(pats, t).contains(i),
        report(pats, t).contains(j),
{
    let pi = pats[i as int];
    let pj = pats[j as int];
    assert(pj =~= tail(t, pj.len() as int));
    assert(pi =~= tail(t, pi.len() as int));
    lemma_report_contains(pats, t, i);
    lemma_report_contains(pats, t, j);
}

/// Two identifiers of the same pattern string are reported together: a
/// scan returns the one exactly if it returns the other.
pub proof fn lemma_equal_patterns_reported_together(
    pats: Seq<Seq<u8>>,
    text: Seq<u8>,
    i: usize,
    j: usize,
)
    requires
        pats.len() <= usize::MAX,
        i < pats.len(),
        j < pats.len(),
        pats[i as int] == pats[j as int],
    ensures
        first_report(pats, text).contains(i) <==> first_report(pats, text).contains(j),
{
    lemma_first_report(pats, text);
    let r = first_report(pats, text);
    if r.len() > 0 {
        let k = choose|k: int|
            1 <= k <= text.len() && r == #[trigger] report(pats, text.take(k)) && forall|j: int|
                1 <= j < k ==> (#[trigger] report(pats, text.take(j))).len() == 0;
        lemma_report_contains(pats, text.take(k), i);
        lemma_report_contains(pats, text.take(k), j);
    }
}

/// A scan returns the report at the first position where anything is
/// reported, and nothing only if nothing is reported anywhere: a later
/// match is never seen.
pub proof fn lemma_find_stops_at_first_report(automaton: &Automaton, text: &str, found: Vec<usize>)
    requires
        automaton.wf(),
        call_ensures(Automaton::find, (automaton, text), found),
    ensures
        found@.len() == 0 ==> forall|k: int|
            1 <= k <= text.spec_bytes().len() ==> (#[trigger] report(
                automaton.pattern_bytes(),
                text.spec_bytes().take(k),
            )).len() == 0,
        found@.len() > 0 ==> exists|k: int|
            1 <= k <= text.spec_bytes().len() && found@ == #[trigger] report(
                automaton.pattern_bytes(),
                text.spec_bytes().take(k),
            ) && forall|j: int|
                1 <= j < k ==> (#[trigger] report(
                    automaton.pattern_bytes(),
                    text.spec_bytes().take(j),
                )).len() == 0,
{
    lemma_first_report(automaton.pattern_bytes(), text.spec_bytes());
}

/// A scan of a text in which none of the patterns occurs returns nothing.
pub proof fn lemma_find_nothing_where_nothing_occurs(
    automaton: &Automaton,
    text: &str,
    found: Vec<usize>,
)
    requires
        automaton.wf(),
        call_ensures(Automaton::find, (automaton, text), found),
        forall|i: int|
            0 <= i < automaton.pattern_bytes().len() ==> !occurs_in(
                #[trigger] automaton.pattern_bytes()[i],
                text.spec_bytes(),
            ),
    ensures
        found@.len() == 0,
{
    lemma_no_occurrence_no_report(automaton.pattern_bytes(), text.spec_bytes());
}

/// With one pattern, and that not empty, a scan of the pattern itself
/// returns its identifier and nothing else.
pub proof fn lemma_find_single_pattern(automaton: &Automaton, text: &str, found: Vec<usize>)
    requires
        automaton.wf(),
        call_ensures(Automaton::find, (automaton, text), found),
        automaton.patterns() == seq![text@],
        text@.len() > 0,
    ensures
        found@ == seq![0usize],
{
    let p = text.spec_bytes();
    assert(automaton.pattern_bytes() =~= seq![p]);
    encode_utf8_first_scalar(text@);
    lemma_single_pattern(p);
}

/// Where the same string was added twice, a scan returns both of its
/// identifiers or neither.
pub proof fn lemma_find_equal_patterns(
    automaton: &Automaton,
    text: &str,
    found: Vec<usize>,
    i: usize,
    j: usize,
)
    requires
        automaton.wf(),
        call_ensures(Automaton::find, (automaton, text), found),
        i < automaton.patterns().len(),
        j < automaton.patterns().len(),
        automaton.patterns()[i as int] == automaton.patterns()[j as int],
    ensures
        found@.contains(i) <==> found@.contains(j),
{
    automaton.lemma_patterns_are_numbered();
    lemma_equal_patterns_reported_together(
        automaton.pattern_bytes(),
        text.spec_bytes(),
        i,
        j,
    );
}

/// Two scans of the same text with the same automaton return the same.
pub proof fn lemma_find_is_deterministic(
    automaton: &Automaton,
    text: &str,
    first: Vec<usize>,
    second: Vec<usize>,
)
    requires
        automaton.wf(),
        call_ensures(Automaton::find, (automaton, text), first),
        call_ensures(Automaton::find, (automaton, text), second),
    ensures
        first@ == second@,
{
}

} // verus!
