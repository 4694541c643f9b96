//! Ranking of mirrors by their latency estimates.
//!
//! The collected `(mirror, estimate)` pairs are filtered — every failed
//! mirror is discarded — and the survivors are ordered by ascending mean
//! latency; mirrors with equal estimates keep their input order.

use crate::latency::LatencyEstimate;
use vstd::prelude::*;

verus! {

/// One surviving mirror, tagged with its mean latency and its position in
/// the input pair list.
pub struct Entry {
    pub mirror: String,
    pub latency: u32,
    pub pos: usize,
}

/// The stable ascending order: by latency, ties by input position.
pub open spec fn entry_le(a: Entry, b: Entry) -> bool {
    a.latency < b.latency || (a.latency == b.latency && a.pos <= b.pos)
}

/// The successful pairs of `s`, each tagged with its position in `s`.
pub open spec fn successes(s: Seq<(String, LatencyEstimate)>) -> Seq<Entry>
    decreases s.len(),
{
    if s.len() == 0 {
        Seq::empty()
    } else {
        let rest = successes(s.drop_last());
        match s.last().1 {
            LatencyEstimate::Mean(m) => rest.push(
                Entry { mirror: s.last().0, latency: m, pos: (s.len() - 1) as usize },
            ),
            LatencyEstimate::Failure => rest,
        }
    }
}

/// Insertion of `e` into `s` before the first element that must follow it
/// in the stable order.
pub open spec fn insert_ordered(e: Entry, s: Seq<Entry>) -> Seq<Entry>
    decreases s.len(),
{
    if s.len() == 0 {
        seq![e]
    } else if entry_le(s[0], e) {
        seq![s[0]] + insert_ordered(e, s.drop_first())
    } else {
        seq![e] + s
    }
}

/// The stable sort of `s` in the order `entry_le`.
pub open spec fn stable_sorted(s: Seq<Entry>) -> Seq<Entry>
    decreases s.len(),
{
    if s.len() == 0 {
        Seq::empty()
    } else {
        insert_ordered(s.last(), stable_sorted(s.drop_last()))
    }
}

/// The mirrors of the entries, in order.
pub open spec fn mirror_names(s: Seq<Entry>) -> Seq<String>
    decreases s.len(),
{
    if s.len() == 0 {
        Seq::empty()
    } else {
        mirror_names(s.drop_last()).push(s.last().mirror)
    }
}

/// The surviving entries in their final order.
pub open spec fn ranked_entries(pairs: Seq<(String, LatencyEstimate)>) -> Seq<Entry> {
    stable_sorted(successes(pairs))
}

/// What the ranking returns: the mirrors of the surviving entries, fastest
/// first.
pub open spec fn ranked(pairs: Seq<(String, LatencyEstimate)>) -> Seq<String> {
    mirror_names(ranked_entries(pairs))
}

/// Ascending in the stable order.
pub open spec fn is_ordered(s: Seq<Entry>) -> bool {
    forall|i: int, j: int| 0 <= i < j < s.len() ==> entry_le(s[i], s[j])
}

/// Inserting before the first element that must follow `e` is the same as
/// splicing `e` in at that point.
proof fn lemma_insert_ordered_split(e: Entry, s: Seq<Entry>, k: int)
    requires
        0 <= k <= s.len(),
        forall|j: int| 0 <= j < k ==> entry_le(s[j], e),
        k < s.len() ==> !entry_le(s[k], e),
    ensures
        insert_ordered(e, s) == s.insert(k, e),
    decreases s.len(),
{
    if k == 0 {
        if s.len() == 0 {
            assert(insert_ordered(e, s) =~= s.insert(0, e));
        } else {
            assert(!entry_le(s[0], e));
            assert(insert_ordered(e, s) =~= s.insert(0, e));
        }
    } else {
        assert(entry_le(s[0], e));
        lemma_insert_ordered_split(e, s.drop_first(), k - 1);
        assert(insert_ordered(e, s) == seq![s[0]] + s.drop_first().insert(k - 1, e));
        assert(seq![s[0]] + s.drop_first().insert(k - 1, e) =~= s.insert(k, e));
    }
}

fn entry_le_exec(a: &Entry, b: &Entry) -> (r: bool)
    ensures
        r == entry_le(*a, *b),
{
    a.latency < b.latency || (a.latency == b.latency && a.pos <= b.pos)
}

/// Position before the first element of `v` that must follow `e` in the
/// stable order.
fn find_insert_pos(v: &Vec<Entry>, e: &Entry) -> (k: usize)
    ensures
        k <= v@.len(),
        forall|j: int| 0 <= j < k ==> entry_le(v@[j], *e),
        k < v@.len() ==> !entry_le(v@[k as int], *e),
{
    let mut k: usize = 0;
    let mut found = false;
    while !found && k < v.len()
        invariant
            k <= v@.len(),
            forall|j: int| 0 <= j < k ==> entry_le(v@[j], *e),
            found ==> k < v@.len() && !entry_le(v@[k as int], *e),
        decreases v@.len() - k, (if found { 0int } else { 1int }),
    {
        if entry_le_exec(&v[k], e) {
            k = k + 1;
        } else {
            found = true;
        }
    }
    k
}

/// Filter: keep the pairs with a mean estimate, tagged with their input
/// positions.
fn tag_successes(pairs: Vec<(String, LatencyEstimate)>) -> (r: Vec<Entry>)
    ensures
        r@ == successes(pairs@),
{
    let ghost orig = pairs@;
    let total = pairs.len();
    let mut rest = pairs;
    let mut out: Vec<Entry> = Vec::new();
    let mut pos: usize = 0;
    while rest.len() > 0
        invariant
            orig.len() == total,
            pos + rest@.len() == orig.len(),
            rest@ == orig.skip(pos as int),
            out@ == successes(orig.take(pos as int)),
        decreases rest@.len(),
    {
        let (mirror, est) = rest.remove(0);
        proof {
            assert(orig.skip(pos as int).remove(0) =~= orig.skip(pos as int + 1));
            assert(orig.take(pos as int + 1).drop_last() =~= orig.take(pos as int));
            assert(orig.take(pos as int + 1).last() == orig[pos as int]);
        }
        match est {
            LatencyEstimate::Mean(m) => out.push(Entry { mirror, latency: m, pos }),
            LatencyEstimate::Failure => {},
        }
        pos = pos + 1;
    }
    proof {
        assert(orig.take(orig.len() as int) =~= orig);
    }
    out
}

/// Stable insertion sort of the tagged entries.
fn sort_entries(entries: Vec<Entry>) -> (r: Vec<Entry>)
    ensures
        r@ == stable_sorted(entries@),
{
    let ghost orig = entries@;
    let total = entries.len();
    let mut rest = entries;
    let mut out: Vec<Entry> = Vec::new();
    let mut i: usize = 0;
    while rest.len() > 0
        invariant
            orig.len() == total,
            i + rest@.len() == orig.len(),
            rest@ == orig.skip(i as int),
            out@ == stable_sorted(orig.take(i as int)),
        decreases rest@.len(),
    {
        let e = rest.remove(0);
        let k = find_insert_pos(&out, &e);
        proof {
            assert(orig.skip(i as int).remove(0) =~= orig.skip(i as int + 1));
            assert(orig.take(i as int + 1).drop_last() =~= orig.take(i as int));
            assert(orig.take(i as int + 1).last() == orig[i as int]);
            lemma_insert_ordered_split(e, out@, k as int);
        }
        out.insert(k, e);
        i = i + 1;
    }
    proof {
        assert(orig.take(orig.len() as int) =~= orig);
    }
    out
}

/// Ranks the collected `(mirror, estimate)` pairs: every failed mirror is
/// discarded, the survivors are ordered by ascending mean latency, and
/// mirrors with equal estimates keep their input order. An empty result is
/// a valid outcome, not an error.
pub fn rank_mirrors(pairs: Vec<(String, LatencyEstimate)>) -> (r: Vec<String>)
    ensures
        r@ == ranked(pairs@),
{
    let tagged = tag_successes(pairs);
    let ghost entries = tagged@;
    let mut rest = sort_entries(tagged);
    let ghost sorted = rest@;
    let total = rest.len();
    let mut out: Vec<String> = Vec::new();
    let mut i: usize = 0;
    while rest.len() > 0
        invariant
            sorted.len() == total,
            i + rest@.len() == sorted.len(),
            rest@ == sorted.skip(i as int),
            out@ == mirror_names(sorted.take(i as int)),
        decreases rest@.len(),
    {
        let e = rest.remove(0);
        proof {
            assert(sorted.skip(i as int).remove(0) =~= sorted.skip(i as int + 1));
            assert(sorted.take(i as int + 1).drop_last() =~= sorted.take(i as int));
            assert(sorted.take(i as int + 1).last() == sorted[i as int]);
        }
        out.push(e.mirror);
        i = i + 1;
    }
    proof {
        assert(sorted.take(sorted.len() as int) =~= sorted);
    }
    out
}

/// `insert_ordered` adds exactly `e`: one element longer, one more copy of
/// `e` in the multiset, membership otherwise unchanged.
proof fn lemma_insert_ordered_perm(e: Entry, s: Seq<Entry>)
    ensures
        insert_ordered(e, s).len() == s.len() + 1,
        insert_ordered(e, s).to_multiset() == s.to_multiset().insert(e),
        forall|x: Entry| #[trigger] insert_ordered(e, s).contains(x) <==> (x == e || s.contains(
            x,
        )),
    decreases s.len(),
{
    broadcast use vstd::seq_lib::group_to_multiset_ensures;
    broadcast use vstd::multiset::group_multiset_axioms;
    broadcast use vstd::multiset::lemma_insert_containment;
    broadcast use vstd::multiset::lemma_insert_increases_count_by_1;
    broadcast use vstd::multiset::lemma_insert_other_elements_unchanged;

    if s.len() == 0 {
        assert(insert_ordered(e, s) =~= s.push(e));
    } else if entry_le(s[0], e) {
        let t = insert_ordered(e, s.drop_first());
        lemma_insert_ordered_perm(e, s.drop_first());
        vstd::seq_lib::lemma_multiset_commutative(seq![s[0]], t);
        vstd::seq_lib::lemma_multiset_commutative(seq![s[0]], s.drop_first());
        assert(seq![s[0]] + s.drop_first() =~= s);
        assert(insert_ordered(e, s).to_multiset() =~= s.to_multiset().insert(e));
    } else {
        vstd::seq_lib::lemma_multiset_commutative(seq![e], s);
        assert(seq![e] =~= Seq::<Entry>::empty().push(e));
        assert(insert_ordered(e, s).to_multiset() =~= s.to_multiset().insert(e));
    }
    assert forall|x: Entry| #[trigger] insert_ordered(e, s).contains(x) <==> (x == e
        || s.contains(x)) by {
        assert(insert_ordered(e, s).contains(x) <==> insert_ordered(e, s).to_multiset().count(x)
            > 0);
        assert(s.contains(x) <==> s.to_multiset().count(x) > 0);
    }
}

/// The stable sort is a permutation of its input.
proof fn lemma_stable_sorted_perm(s: Seq<Entry>)
    ensures
        stable_sorted(s).len() == s.len(),
        stable_sorted(s).to_multiset() == s.to_multiset(),
        forall|x: Entry| #[trigger] stable_sorted(s).contains(x) <==> s.contains(x),
    decreases s.len(),
{
    broadcast use vstd::seq_lib::group_to_multiset_ensures;
    broadcast use vstd::multiset::group_multiset_axioms;
    broadcast use vstd::multiset::lemma_insert_containment;

    if s.len() == 0 {
    } else {
        lemma_stable_sorted_perm(s.drop_last());
        lemma_insert_ordered_perm(s.last(), stable_sorted(s.drop_last()));
        assert(s.drop_last().push(s.last()) =~= s);
        assert(stable_sorted(s).to_multiset() =~= s.to_multiset());
        assert forall|x: Entry| #[trigger] stable_sorted(s).contains(x) <==> s.contains(x) by {
            assert(stable_sorted(s).contains(x) <==> stable_sorted(s).to_multiset().count(x) > 0);
            assert(s.contains(x) <==> s.to_multiset().count(x) > 0);
        }
    }
}

/// Inserting into an ordered sequence keeps it ordered.
proof fn lemma_insert_ordered_keeps_order(e: Entry, s: Seq<Entry>)
    requires
        is_ordered(s),
    ensures
        is_ordered(insert_ordered(e, s)),
    decreases s.len(),
{
    if s.len() == 0 {
    } else if entry_le(s[0], e) {
        assert(is_ordered(s.drop_first())) by {
            assert forall|i: int, j: int|
                0 <= i < j < s.drop_first().len() implies entry_le(
                s.drop_first()[i],
                s.drop_first()[j],
            ) by {
                assert(s.drop_first()[i] == s[i + 1]);
                assert(s.drop_first()[j] == s[j + 1]);
            }
        };
        lemma_insert_ordered_keeps_order(e, s.drop_first());
        lemma_insert_ordered_perm(e, s.drop_first());
        let t = insert_ordered(e, s.drop_first());
        let r = insert_ordered(e, s);
        assert(r == seq![s[0]] + t);
        assert forall|i: int, j: int| 0 <= i < j < r.len() implies entry_le(r[i], r[j]) by {
            if i == 0 {
                let x = t[j - 1];
                assert(t.contains(x));
                if x == e {
                } else {
                    assert(s.drop_first().contains(x));
                    let k = choose|k: int|
                        0 <= k < s.drop_first().len() && s.drop_first()[k] == x;
                    assert(s[k + 1] == x);
                    assert(entry_le(s[0], s[k + 1]));
                }
                assert(r[0] == s[0]);
                assert(r[j] == x);
            } else {
                assert(r[i] == t[i - 1]);
                assert(r[j] == t[j - 1]);
            }
        }
    } else {
        let r = insert_ordered(e, s);
        assert(r == seq![e] + s);
        assert forall|i: int, j: int| 0 <= i < j < r.len() implies entry_le(r[i], r[j]) by {
            if i == 0 {
                assert(r[j] == s[j - 1]);
                if j > 1 {
                    assert(entry_le(s[0], s[j - 1]));
                }
            } else {
                assert(r[i] == s[i - 1]);
                assert(r[j] == s[j - 1]);
            }
        }
    }
}

/// The stable sort is ordered.
proof fn lemma_stable_sorted_ordered(s: Seq<Entry>)
    ensures
        is_ordered(stable_sorted(s)),
    decreases s.len(),
{
    if s.len() > 0 {
        lemma_stable_sorted_ordered(s.drop_last());
        lemma_insert_ordered_keeps_order(s.last(), stable_sorted(s.drop_last()));
    }
}

/// Each tagged entry records exactly its source pair; positions strictly
/// increase; every successful pair is tagged.
proof fn lemma_successes_structure(s: Seq<(String, LatencyEstimate)>)
    requires
        s.len() <= usize::MAX,
    ensures
        forall|k: int|
            0 <= k < successes(s).len() ==> {
                let e = #[trigger] successes(s)[k];
                &&& e.pos < s.len()
                &&& s[e.pos as int].0 == e.mirror
                &&& s[e.pos as int].1 == LatencyEstimate::Mean(e.latency)
            },
        forall|k1: int, k2: int|
            #![trigger successes(s)[k1], successes(s)[k2]]
            0 <= k1 < k2 < successes(s).len() ==> successes(s)[k1].pos < successes(s)[k2].pos,
        forall|i: int|
            0 <= i < s.len() && (#[trigger] s[i]).1 is Mean ==> exists|k: int|
                0 <= k < successes(s).len() && (#[trigger] successes(s)[k]).pos == i,
    decreases s.len(),
{
    if s.len() > 0 {
        let d = s.drop_last();
        lemma_successes_structure(d);
        assert(forall|p: int| 0 <= p < d.len() ==> #[trigger] d[p] == s[p]);
        match s.last().1 {
            LatencyEstimate::Mean(m) => {
                let e = Entry { mirror: s.last().0, latency: m, pos: (s.len() - 1) as usize };
                assert(successes(s) == successes(d).push(e));
                assert forall|i: int|
                    0 <= i < s.len() && (#[trigger] s[i]).1 is Mean implies exists|k: int|
                    0 <= k < successes(s).len() && (#[trigger] successes(s)[k]).pos == i by {
                    if i < s.len() - 1 {
                        assert(d[i] == s[i]);
                        assert(d[i].1 is Mean);
                        let k = choose|k: int|
                            0 <= k < successes(d).len() && (#[trigger] successes(d)[k]).pos == i;
                        assert(successes(s)[k] == successes(d)[k]);
                        assert(successes(s)[k].pos == i);
                    } else {
                        assert(successes(s).last() == e);
                        assert(e.pos == s.len() - 1);
                        assert(successes(s)[successes(s).len() - 1].pos == i);
                    }
                }
            },
            LatencyEstimate::Failure => {
                assert(successes(s) == successes(d));
                assert forall|i: int|
                    0 <= i < s.len() && (#[trigger] s[i]).1 is Mean implies exists|k: int|
                    0 <= k < successes(s).len() && (#[trigger] successes(s)[k]).pos == i by {
                    if i < s.len() - 1 {
                        assert(d[i] == s[i]);
                        assert(d[i].1 is Mean);
                        let k = choose|k: int|
                            0 <= k < successes(d).len() && (#[trigger] successes(d)[k]).pos == i;
                        assert(successes(s)[k].pos == i);
                    }
                }
            },
        }
    }
}

/// Pairwise-distinct positions survive any permutation.
proof fn lemma_perm_distinct_pos(s: Seq<Entry>, t: Seq<Entry>)
    requires
        t.to_multiset() == s.to_multiset(),
        forall|k1: int, k2: int|
            #![trigger s[k1], s[k2]]
            0 <= k1 < k2 < s.len() ==> s[k1].pos != s[k2].pos,
    ensures
        forall|j1: int, j2: int|
            #![trigger t[j1], t[j2]]
            0 <= j1 < j2 < t.len() ==> t[j1].pos != t[j2].pos,
{
    broadcast use vstd::seq_lib::group_to_multiset_ensures;
    broadcast use vstd::multiset::group_multiset_axioms;

    assert(s.no_duplicates()) by {
        assert forall|i: int, j: int|
            0 <= i < s.len() && 0 <= j < s.len() && i != j implies s[i] != s[j] by {
            if i < j {
                assert(s[i].pos != s[j].pos);
            } else {
                assert(s[j].pos != s[i].pos);
            }
        }
    };
    s.lemma_multiset_has_no_duplicates();
    t.lemma_multiset_has_no_duplicates_conv();
    assert forall|j1: int, j2: int|
        0 <= j1 < j2 < t.len() implies t[j1].pos != t[j2].pos by {
        if t[j1].pos == t[j2].pos {
            assert(t.contains(t[j1]));
            assert(t.contains(t[j2]));
            assert(s.contains(t[j1])) by {
                assert(s.to_multiset().count(t[j1]) > 0);
            };
            assert(s.contains(t[j2])) by {
                assert(s.to_multiset().count(t[j2]) > 0);
            };
            let k1 = choose|k: int| 0 <= k < s.len() && s[k] == t[j1];
            let k2 = choose|k: int| 0 <= k < s.len() && s[k] == t[j2];
            assert(k1 == k2);
            assert(t[j1] == t[j2]);
            assert(false);
        }
    }
}

/// The names follow the entries, index by index.
proof fn lemma_mirror_names_index(s: Seq<Entry>)
    ensures
        mirror_names(s).len() == s.len(),
        forall|j: int| 0 <= j < s.len() ==> #[trigger] mirror_names(s)[j] == s[j].mirror,
    decreases s.len(),
{
    if s.len() > 0 {
        lemma_mirror_names_index(s.drop_last());
        assert(forall|p: int| 0 <= p < s.len() - 1 ==> #[trigger] s.drop_last()[p] == s[p]);
    }
}

/// Law: the ranking is drawn from the input — every ranked mirror names a
/// distinct input pair whose estimate was a mean, so no mirror is invented
/// and no duplicate is introduced — and every successful pair is ranked.
pub proof fn lemma_ranking_within_input(pairs: Seq<(String, LatencyEstimate)>)
    requires
        pairs.len() <= usize::MAX,
    ensures
        ranked(pairs).len() == ranked_entries(pairs).len(),
        forall|j: int|
            0 <= j < ranked_entries(pairs).len() ==> #[trigger] ranked(pairs)[j]
                == ranked_entries(pairs)[j].mirror,
        forall|j: int|
            0 <= j < ranked_entries(pairs).len() ==> {
                let e = #[trigger] ranked_entries(pairs)[j];
                &&& e.pos < pairs.len()
                &&& pairs[e.pos as int].0 == e.mirror
                &&& pairs[e.pos as int].1 == LatencyEstimate::Mean(e.latency)
            },
        forall|j1: int, j2: int|
            #![trigger ranked_entries(pairs)[j1], ranked_entries(pairs)[j2]]
            0 <= j1 < j2 < ranked_entries(pairs).len() ==> ranked_entries(pairs)[j1].pos
                != ranked_entries(pairs)[j2].pos,
        forall|i: int|
            0 <= i < pairs.len() && (#[trigger] pairs[i]).1 is Mean ==> exists|j: int|
                0 <= j < ranked_entries(pairs).len() && (#[trigger] ranked_entries(pairs)[j]).pos
                    == i,
{
    let ss = successes(pairs);
    let es = ranked_entries(pairs);
    lemma_successes_structure(pairs);
    lemma_stable_sorted_perm(ss);
    lemma_perm_distinct_pos(ss, es);
    lemma_mirror_names_index(es);
    assert forall|j: int|
        0 <= j < es.len() implies {
        let e = #[trigger] es[j];
        &&& e.pos < pairs.len()
        &&& pairs[e.pos as int].0 == e.mirror
        &&& pairs[e.pos as int].1 == LatencyEstimate::Mean(e.latency)
    } by {
        assert(es.contains(es[j]));
        assert(ss.contains(es[j]));
        let k = choose|k: int| 0 <= k < ss.len() && ss[k] == es[j];
        assert(ss[k].pos < pairs.len());
    }
    assert forall|i: int|
        0 <= i < pairs.len() && (#[trigger] pairs[i]).1 is Mean implies exists|j: int|
        0 <= j < es.len() && (#[trigger] es[j]).pos == i by {
        let k = choose|k: int| 0 <= k < ss.len() && (#[trigger] ss[k]).pos == i;
        assert(ss.contains(ss[k]));
        assert(es.contains(ss[k]));
        let j = choose|j: int| 0 <= j < es.len() && es[j] == ss[k];
        assert(es[j].pos == i);
    }
}

/// Law: the ranking ascends by mean latency, and mirrors with equal means
/// keep their input order.
pub proof fn lemma_ranking_sorted_stable(pairs: Seq<(String, LatencyEstimate)>)
    requires
        pairs.len() <= usize::MAX,
    ensures
        forall|j1: int, j2: int|
            #![trigger ranked_entries(pairs)[j1], ranked_entries(pairs)[j2]]
            0 <= j1 < j2 < ranked_entries(pairs).len() ==> {
                let a = ranked_entries(pairs)[j1];
                let b = ranked_entries(pairs)[j2];
                a.latency < b.latency || (a.latency == b.latency && a.pos < b.pos)
            },
{
    let ss = successes(pairs);
    let es = ranked_entries(pairs);
    lemma_stable_sorted_ordered(ss);
    lemma_successes_structure(pairs);
    lemma_stable_sorted_perm(ss);
    lemma_perm_distinct_pos(ss, es);
    assert forall|j1: int, j2: int|
        #![trigger es[j1], es[j2]]
        0 <= j1 < j2 < es.len() implies {
        let a = es[j1];
        let b = es[j2];
        a.latency < b.latency || (a.latency == b.latency && a.pos < b.pos)
    } by {
        assert(entry_le(es[j1], es[j2]));
        assert(es[j1].pos != es[j2].pos);
    }
}

/// Law: a pair whose estimate is a failure contributes nothing to the
/// ranking, whatever its earlier samples were.
pub proof fn lemma_failure_excluded(pairs: Seq<(String, LatencyEstimate)>, i: int)
    requires
        pairs.len() <= usize::MAX,
        0 <= i < pairs.len(),
        pairs[i].1 is Failure,
    ensures
        forall|j: int|
            0 <= j < ranked_entries(pairs).len() ==> (#[trigger] ranked_entries(pairs)[j]).pos
                != i,
{
    lemma_ranking_within_input(pairs);
}

/// Law: an empty input list yields an empty ranking.
pub proof fn lemma_empty_input(pairs: Seq<(String, LatencyEstimate)>)
    requires
        pairs.len() == 0,
    ensures
        ranked(pairs) == Seq::<String>::empty(),
{
    assert(ranked(pairs) =~= Seq::<String>::empty());
}

proof fn lemma_all_failed_no_successes(pairs: Seq<(String, LatencyEstimate)>)
    requires
        forall|i: int| 0 <= i < pairs.len() ==> (#[trigger] pairs[i]).1 is Failure,
    ensures
        successes(pairs) == Seq::<Entry>::empty(),
    decreases pairs.len(),
{
    if pairs.len() > 0 {
        let d = pairs.drop_last();
        assert(forall|i: int| 0 <= i < d.len() ==> #[trigger] d[i] == pairs[i]);
        lemma_all_failed_no_successes(d);
    }
}

/// Law: if every mirror failed, the ranking is empty — a valid outcome,
/// not an error.
pub proof fn lemma_all_failed(pairs: Seq<(String, LatencyEstimate)>)
    requires
        forall|i: int| 0 <= i < pairs.len() ==> (#[trigger] pairs[i]).1 is Failure,
    ensures
        ranked(pairs) == Seq::<String>::empty(),
{
    lemma_all_failed_no_successes(pairs);
    assert(ranked(pairs) =~= Seq::<String>::empty());
}

} // verus!

