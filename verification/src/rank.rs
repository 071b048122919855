//! Ranking and truncation of candidate lists.
//!
//! After all input is merged, each key's list is sorted by weight descending
//! (stable: equal weights keep insertion order) and, when a cap is set,
//! truncated to the highest-weighted entries.

use vstd::multiset::Multiset;
use vstd::prelude::*;

use crate::table::{list_wf, CandModel, Candidate, CandidateTable, TableModel};

verus! {

/// Insert `x` into `l` after every candidate whose weight is at least
/// `x`'s weight. On a sorted list this is a stable descending insertion.
pub open spec fn insert_desc(l: Seq<CandModel>, x: CandModel) -> Seq<CandModel>
    decreases l.len(),
{
    if l.len() == 0 {
        seq![x]
    } else if l[0].1 >= x.1 {
        seq![l[0]] + insert_desc(l.skip(1), x)
    } else {
        seq![x] + l
    }
}

/// Stable insertion sort by weight descending: candidates are inserted in
/// list order, each after all candidates of equal or greater weight.
pub open spec fn sort_desc(l: Seq<CandModel>) -> Seq<CandModel>
    decreases l.len(),
{
    if l.len() == 0 {
        Seq::empty()
    } else {
        insert_desc(sort_desc(l.drop_last()), l.last())
    }
}

/// Weights never increase along the list.
pub open spec fn sorted_desc(l: Seq<CandModel>) -> bool {
    forall|i: int, j: int| 0 <= i < j < l.len() ==> l[i].1 >= l[j].1
}

/// A key's final list: sorted by weight descending and, when a cap is set,
/// truncated to the first `m` entries.
pub open spec fn rank_model(l: Seq<CandModel>, m: Option<usize>) -> Seq<CandModel> {
    let s = sort_desc(l);
    match m {
        None => s,
        Some(mm) => if s.len() > mm {
            s.take(mm as int)
        } else {
            s
        },
    }
}

/// The whole table after ranking: every list ranked, keys untouched.
pub open spec fn finalize_model(t: TableModel, m: Option<usize>) -> TableModel {
    Seq::new(t.len(), |i: int| (t[i].0, rank_model(t[i].1, m)))
}

/// Inserting preserves sortedness and adds exactly `x` to the contents.
proof fn lemma_insert_desc(l: Seq<CandModel>, x: CandModel)
    requires
        sorted_desc(l),
    ensures
        sorted_desc(insert_desc(l, x)),
        insert_desc(l, x).to_multiset() == l.to_multiset().insert(x),
        insert_desc(l, x).len() == l.len() + 1,
    decreases l.len(),
{
    broadcast use vstd::seq_lib::group_to_multiset_ensures;

    if l.len() == 0 {
        assert(seq![x] =~= Seq::<CandModel>::empty().push(x));
        assert(seq![x].to_multiset() =~= l.to_multiset().insert(x));
    } else if l[0].1 >= x.1 {
        assert(sorted_desc(l.skip(1)));
        lemma_insert_desc(l.skip(1), x);
        let r = seq![l[0]] + insert_desc(l.skip(1), x);
        assert forall|i: int, j: int| 0 <= i < j < r.len() implies r[i].1 >= r[j].1 by {
            if i > 0 {
                assert(r[i] == insert_desc(l.skip(1), x)[i - 1]);
                assert(r[j] == insert_desc(l.skip(1), x)[j - 1]);
            } else {
                assert(r[j] == insert_desc(l.skip(1), x)[j - 1]);
                lemma_insert_desc_elems(l.skip(1), x, j - 1);
            }
        }
        lemma_multiset_head_tail(l);
        lemma_multiset_head_tail(r);
        assert(r.skip(1) =~= insert_desc(l.skip(1), x));
        assert(r.to_multiset() =~= l.to_multiset().insert(x));
    } else {
        let r = seq![x] + l;
        assert forall|i: int, j: int| 0 <= i < j < r.len() implies r[i].1 >= r[j].1 by {
            if i > 0 {
                assert(r[i] == l[i - 1]);
                assert(r[j] == l[j - 1]);
            } else {
                assert(r[j] == l[j - 1]);
                assert(l[0].1 >= l[j - 1].1);
            }
        }
        lemma_multiset_head_tail(r);
        assert(r.skip(1) =~= l);
    }
}

/// Every element of an insertion's result is `x` or an element of `l`.
proof fn lemma_insert_desc_elems(l: Seq<CandModel>, x: CandModel, i: int)
    requires
        0 <= i < insert_desc(l, x).len(),
    ensures
        insert_desc(l, x)[i] == x || (exists|j: int|
            0 <= j < l.len() && insert_desc(l, x)[i] == l[j]),
    decreases l.len(),
{
    if l.len() == 0 {
    } else if l[0].1 >= x.1 {
        if i > 0 {
            lemma_insert_desc_elems(l.skip(1), x, i - 1);
            if insert_desc(l, x)[i] != x {
                let j = choose|j: int|
                    0 <= j < l.skip(1).len() && insert_desc(l.skip(1), x)[i - 1] == l.skip(1)[j];
                assert(insert_desc(l, x)[i] == l[j + 1]);
            }
        } else {
            assert(insert_desc(l, x)[0] == l[0]);
        }
    } else {
        if i > 0 {
            assert(insert_desc(l, x)[i] == l[i - 1]);
        }
    }
}

/// A sequence's contents are its head plus its tail's contents.
proof fn lemma_multiset_head_tail(s: Seq<CandModel>)
    requires
        s.len() > 0,
    ensures
        s.to_multiset() == s.skip(1).to_multiset().insert(s[0]),
{
    broadcast use vstd::seq_lib::group_to_multiset_ensures;

    assert(s =~= seq![s[0]] + s.skip(1));
    vstd::seq_lib::lemma_multiset_commutative(seq![s[0]], s.skip(1));
    assert(seq![s[0]] =~= Seq::<CandModel>::empty().push(s[0]));
    assert(seq![s[0]].to_multiset() =~= Multiset::<CandModel>::empty().insert(s[0]));
    assert(s.to_multiset() =~= s.skip(1).to_multiset().insert(s[0]));
}

/// Sorting yields a sorted permutation of the list.
pub proof fn lemma_sort_desc(l: Seq<CandModel>)
    ensures
        sorted_desc(sort_desc(l)),
        sort_desc(l).to_multiset() == l.to_multiset(),
        sort_desc(l).len() == l.len(),
    decreases l.len(),
{
    broadcast use vstd::seq_lib::group_to_multiset_ensures;

    if l.len() == 0 {
    } else {
        lemma_sort_desc(l.drop_last());
        lemma_insert_desc(sort_desc(l.drop_last()), l.last());
        assert(l =~= l.drop_last().push(l.last()));
        assert(l.drop_last().push(l.last()).to_multiset() =~= l.drop_last().to_multiset().insert(
            l.last(),
        ));
    }
}

/// Inserting a value no candidate holds keeps values unique.
proof fn lemma_insert_desc_wf(l: Seq<CandModel>, x: CandModel)
    requires
        list_wf(l),
        forall|i: int| 0 <= i < l.len() ==> (#[trigger] l[i]).0 != x.0,
    ensures
        list_wf(insert_desc(l, x)),
    decreases l.len(),
{
    if l.len() == 0 {
    } else if l[0].1 >= x.1 {
        assert(list_wf(l.skip(1)));
        lemma_insert_desc_wf(l.skip(1), x);
        let r = seq![l[0]] + insert_desc(l.skip(1), x);
        assert forall|a: int, b: int| 0 <= a < b < r.len() implies r[a].0 != r[b].0 by {
            if a == 0 {
                assert(r[b] == insert_desc(l.skip(1), x)[b - 1]);
                lemma_insert_desc_elems(l.skip(1), x, b - 1);
                if r[b] != x {
                    let j = choose|j: int|
                        0 <= j < l.skip(1).len() && insert_desc(l.skip(1), x)[b - 1] == l.skip(
                            1,
                        )[j];
                    assert(r[b] == l[j + 1]);
                    assert(l[0].0 != l[j + 1].0);
                }
            } else {
                assert(r[a] == insert_desc(l.skip(1), x)[a - 1]);
                assert(r[b] == insert_desc(l.skip(1), x)[b - 1]);
            }
        }
    } else {
        let r = seq![x] + l;
        assert forall|a: int, b: int| 0 <= a < b < r.len() implies r[a].0 != r[b].0 by {
            assert(r[b] == l[b - 1]);
            if a > 0 {
                assert(r[a] == l[a - 1]);
            }
        }
    }
}

/// Sorting a well-formed list keeps values unique.
pub proof fn lemma_sort_desc_wf(l: Seq<CandModel>)
    requires
        list_wf(l),
    ensures
        list_wf(sort_desc(l)),
    decreases l.len(),
{
    broadcast use vstd::seq_lib::group_to_multiset_ensures;

    if l.len() > 0 {
        let dl = l.drop_last();
        assert(list_wf(dl)) by {
            assert(forall|i: int| 0 <= i < dl.len() ==> dl[i] == l[i]);
        }
        lemma_sort_desc_wf(dl);
        lemma_sort_desc(dl);
        let s = sort_desc(dl);
        assert forall|i: int| 0 <= i < s.len() implies s[i].0 != l.last().0 by {
            assert(s.contains(s[i]));
            assert(s.to_multiset().count(s[i]) > 0);
            assert(dl.contains(s[i]));
            let j = choose|j: int| 0 <= j < dl.len() && dl[j] == s[i];
            assert(l[j] == s[i]);
            assert(l[j].0 != l[l.len() - 1].0);
        }
        lemma_insert_desc_wf(s, l.last());
    }
}

/// When `x` belongs after the first `p` elements and before the rest,
/// insertion puts it exactly there.
proof fn lemma_insert_desc_at(l: Seq<CandModel>, x: CandModel, p: int)
    requires
        0 <= p <= l.len(),
        forall|j: int| 0 <= j < p ==> l[j].1 >= x.1,
        p < l.len() ==> l[p].1 < x.1,
    ensures
        insert_desc(l, x) =~= l.take(p) + seq![x] + l.skip(p),
    decreases p,
{
    if l.len() == 0 {
        assert(insert_desc(l, x) =~= l.take(0) + seq![x] + l.skip(0));
    } else if p == 0 {
        assert(l[0].1 < x.1);
        assert(insert_desc(l, x) =~= l.take(0) + seq![x] + l.skip(0));
    } else {
        lemma_insert_desc_at(l.skip(1), x, p - 1);
        assert(l.skip(1).take(p - 1) =~= l.take(p).skip(1));
        assert(l.skip(1).skip(p - 1) =~= l.skip(p));
        assert(seq![l[0]] + (l.skip(1).take(p - 1) + seq![x] + l.skip(1).skip(p - 1)) =~= l.take(p)
            + seq![x] + l.skip(p));
    }
}

/// Insert one candidate into a sorted list, keeping it sorted; equal weights
/// go after existing ones.
fn insert_candidate(out: &mut Vec<Candidate>, c: Candidate)
    ensures
        final(out).deep_view() == insert_desc(old(out).deep_view(), (c.0@, c.1)),
{
    let n = out.len();
    let mut p: usize = 0;
    while p < n && out[p].1 >= c.1
        invariant
            0 <= p <= n,
            n == out.len(),
            out == old(out),
            forall|j: int| 0 <= j < p ==> out.deep_view()[j].1 >= c.1,
        decreases n - p,
    {
        p += 1;
    }
    out.insert(p, c);
    proof {
        lemma_insert_desc_at(old(out).deep_view(), (c.0@, c.1), p as int);
        assert(out.deep_view() =~~= old(out).deep_view().take(p as int) + seq![(c.0@, c.1)] + old(
            out,
        ).deep_view().skip(p as int));
    }
}

/// Sort a candidate list by weight descending, stably.
fn sort_candidates(l: &mut Vec<Candidate>)
    ensures
        final(l).deep_view() == sort_desc(old(l).deep_view()),
{
    let ghost orig = old(l).deep_view();
    let mut out: Vec<Candidate> = Vec::new();
    proof {
        assert(orig.skip(0) =~= orig);
        assert(orig.take(0) =~= Seq::<CandModel>::empty());
    }
    while l.len() > 0
        invariant
            l.deep_view() =~= orig.skip(orig.len() - l.deep_view().len()),
            l.deep_view().len() <= orig.len(),
            out.deep_view() == sort_desc(orig.take(orig.len() - l.deep_view().len())),
        decreases l.len(),
    {
        let ghost k = orig.len() - l.deep_view().len();
        let ghost pre = l.deep_view();
        let c = l.remove(0);
        proof {
            assert((c.0@, c.1) == pre[0]);
            assert(orig.skip(k)[0] == orig[k]);
            assert((c.0@, c.1) == orig[k]);
            assert(l.deep_view() =~~= pre.skip(1));
            assert(pre.skip(1) =~= orig.skip(k + 1));
        }
        insert_candidate(&mut out, c);
        proof {
            assert(orig.take(k + 1).drop_last() =~= orig.take(k));
            assert(orig.take(k + 1).last() == orig[k]);
            assert(sort_desc(orig.take(k + 1)) == insert_desc(sort_desc(orig.take(k)), orig[k]));
        }
    }
    proof {
        assert(orig.take(orig.len() as int) =~= orig);
    }
    *l = out;
}

/// Rank one candidate list: sort by weight descending, then truncate to the
/// cap when one is set.
pub fn rank_list(l: &mut Vec<Candidate>, max_candidates: Option<usize>)
    ensures
        final(l).deep_view() == rank_model(old(l).deep_view(), max_candidates),
{
    sort_candidates(l);
    if let Some(m) = max_candidates {
        if l.len() > m {
            l.truncate(m);
            proof {
                assert(l.deep_view() =~= sort_desc(old(l).deep_view()).take(m as int));
            }
        }
    }
}

/// Rank every key's candidate list in place; keys and their order are kept.
pub fn finalize(table: &mut CandidateTable, max_candidates: Option<usize>)
    ensures
        final(table)@ == finalize_model(old(table)@, max_candidates),
{
    let n = table.entries.len();
    let mut i: usize = 0;
    while i < n
        invariant
            0 <= i <= n,
            n == table.entries.len(),
            table@.len() == old(table)@.len(),
            forall|j: int| i <= j < n ==> table@[j] == old(table)@[j],
            forall|j: int|
                0 <= j < i ==> table@[j] == (old(table)@[j].0, rank_model(
                    old(table)@[j].1,
                    max_candidates,
                )),
        decreases n - i,
    {
        let ghost ts = table@;
        let mut e = table.entries.remove(i);
        proof {
            assert((e.0@, e.1.deep_view()) == ts[i as int]);
            assert(table@ =~~= ts.remove(i as int));
        }
        rank_list(&mut e.1, max_candidates);
        proof {
            assert((e.0@, e.1.deep_view()) == (ts[i as int].0, rank_model(
                ts[i as int].1,
                max_candidates,
            )));
        }
        table.entries.insert(i, e);
        proof {
            assert(table@ =~~= ts.update(
                i as int,
                (ts[i as int].0, rank_model(ts[i as int].1, max_candidates)),
            ));
        }
        i += 1;
    }
    proof {
        assert(table@ =~~= finalize_model(old(table)@, max_candidates));
    }
}

} // verus!
