//! Laws of the aggregation algorithm, stated and proved over the spec-level
//! model.

use vstd::prelude::*;

use crate::rank::{finalize_model, rank_model, sort_desc, sorted_desc};
use crate::record::{
    count_char, decompose, fanout, filter_drops, first_index_of, is_first_index_of,
    lemma_first_index_of, line_outcome, merge_all, parse_weight, sentinel, ObsModel,
};
use crate::run_lines;
use crate::table::{
    lemma_merge_obs_absent, lemma_merge_preserves_wf, list_weight_of, list_wf, merge_list,
    merge_obs, table_wf, weight_of, CandModel, EntryModel, TableModel,
};

verus! {

/// What merging one observation does to the stored weight of (key, value):
/// absent pairs appear at the observed weight, present pairs keep the larger
/// of the stored and observed weight.
pub open spec fn merged_weight(prev: Option<u32>, w: u32) -> Option<u32> {
    match prev {
        None => Some(w),
        Some(u) => Some(
            if u < w {
                w
            } else {
                u
            },
        ),
    }
}

proof fn lemma_merge_list_weight(l: Seq<CandModel>, value: Seq<char>, w: u32, v2: Seq<char>)
    ensures
        list_weight_of(merge_list(l, value, w), v2) == (if v2 == value {
            merged_weight(list_weight_of(l, value), w)
        } else {
            list_weight_of(l, v2)
        }),
    decreases l.len(),
{
    if l.len() == 0 {
        let r = merge_list(l, value, w);
        assert(r[0] == (value, w));
        assert(r.skip(1) =~= Seq::<CandModel>::empty());
        assert(list_weight_of(Seq::<CandModel>::empty(), v2) is None);
        assert(list_weight_of(l, v2) is None);
        assert(list_weight_of(l, value) is None);
    } else if l[0].0 == value {
        let r = merge_list(l, value, w);
        assert(r.skip(1) =~= l.skip(1));
    } else {
        let r = merge_list(l, value, w);
        assert(r[0] == l[0]);
        assert(r.skip(1) =~= merge_list(l.skip(1), value, w));
        lemma_merge_list_weight(l.skip(1), value, w, v2);
    }
}

/// Merging one observation changes exactly the stored weight of its own
/// (key, value) pair, and changes it to `merged_weight`.
pub proof fn lemma_merge_weight(
    t: TableModel,
    key: Seq<char>,
    value: Seq<char>,
    w: u32,
    k2: Seq<char>,
    v2: Seq<char>,
)
    ensures
        weight_of(merge_obs(t, key, value, w), k2, v2) == (if k2 == key && v2 == value {
            merged_weight(weight_of(t, key, value), w)
        } else {
            weight_of(t, k2, v2)
        }),
    decreases t.len(),
{
    if t.len() == 0 {
        let r = merge_obs(t, key, value, w);
        assert(r[0] == (key, seq![(value, w)]));
        assert(r.skip(1) =~= Seq::<(Seq<char>, Seq<CandModel>)>::empty());
        assert(weight_of(Seq::<(Seq<char>, Seq<CandModel>)>::empty(), k2, v2) is None);
        assert(weight_of(t, k2, v2) is None);
        assert(weight_of(t, key, value) is None);
        if k2 == key {
            assert(seq![(value, w)][0] == (value, w));
            assert(seq![(value, w)].skip(1) =~= Seq::<CandModel>::empty());
            assert(list_weight_of(Seq::<CandModel>::empty(), v2) is None);
        }
    } else if t[0].0 == key {
        let r = merge_obs(t, key, value, w);
        assert(r[0] == (t[0].0, merge_list(t[0].1, value, w)));
        assert(r.skip(1) =~= t.skip(1));
        lemma_merge_list_weight(t[0].1, value, w, v2);
    } else {
        let r = merge_obs(t, key, value, w);
        assert(r[0] == t[0]);
        assert(r.skip(1) =~= merge_obs(t.skip(1), key, value, w));
        lemma_merge_weight(t.skip(1), key, value, w, k2, v2);
    }
}

/// Max-weight-wins: observing a pair twice, at weights `w1` then `w2`,
/// stores exactly the larger of the two (for a pair not seen before).
pub proof fn lemma_max_weight_wins(
    t: TableModel,
    key: Seq<char>,
    value: Seq<char>,
    w1: u32,
    w2: u32,
)
    requires
        weight_of(t, key, value) is None,
    ensures
        weight_of(merge_obs(merge_obs(t, key, value, w1), key, value, w2), key, value) == Some(
            if w1 < w2 {
                w2
            } else {
                w1
            },
        ),
{
    lemma_merge_weight(t, key, value, w1, key, value);
    lemma_merge_weight(merge_obs(t, key, value, w1), key, value, w2, key, value);
}

proof fn lemma_merge_list_idempotent(l: Seq<CandModel>, value: Seq<char>, w: u32)
    ensures
        merge_list(merge_list(l, value, w), value, w) == merge_list(l, value, w),
    decreases l.len(),
{
    if l.len() == 0 {
        let r = merge_list(l, value, w);
        assert(r[0] == (value, w));
        assert(merge_list(r, value, w) =~= r);
    } else if l[0].0 == value {
        let r = merge_list(l, value, w);
        assert(r[0].0 == value);
        assert(merge_list(r, value, w)[0] == r[0]);
        assert(merge_list(r, value, w) =~= r);
    } else {
        let r = merge_list(l, value, w);
        assert(r[0] == l[0]);
        assert(r.skip(1) =~= merge_list(l.skip(1), value, w));
        lemma_merge_list_idempotent(l.skip(1), value, w);
        assert(merge_list(r, value, w) =~= seq![r[0]] + merge_list(r.skip(1), value, w));
        assert(merge_list(r, value, w) =~= r);
    }
}

/// Idempotent re-merge: merging the same observation twice yields the same
/// table as merging it once.
pub proof fn lemma_idempotent_remerge(t: TableModel, key: Seq<char>, value: Seq<char>, w: u32)
    ensures
        merge_obs(merge_obs(t, key, value, w), key, value, w) == merge_obs(t, key, value, w),
    decreases t.len(),
{
    if t.len() == 0 {
        let r = merge_obs(t, key, value, w);
        assert(r[0] == (key, seq![(value, w)]));
        lemma_merge_list_idempotent(Seq::<CandModel>::empty(), value, w);
        assert(seq![(value, w)] =~= merge_list(Seq::<CandModel>::empty(), value, w));
        assert(merge_obs(r, key, value, w) =~= r);
    } else if t[0].0 == key {
        let r = merge_obs(t, key, value, w);
        assert(r[0] == (t[0].0, merge_list(t[0].1, value, w)));
        assert(r.skip(1) =~= t.skip(1));
        lemma_merge_list_idempotent(t[0].1, value, w);
        assert(merge_obs(r, key, value, w) =~= r);
    } else {
        let r = merge_obs(t, key, value, w);
        assert(r[0] == t[0]);
        assert(r.skip(1) =~= merge_obs(t.skip(1), key, value, w));
        lemma_idempotent_remerge(t.skip(1), key, value, w);
        assert(merge_obs(r, key, value, w) =~= seq![r[0]] + merge_obs(r.skip(1), key, value, w));
        assert(merge_obs(r, key, value, w) =~= r);
    }
}

proof fn lemma_count_char_zero(s: Seq<char>, c: char)
    requires
        count_char(s, c) == 0,
    ensures
        forall|j: int| 0 <= j < s.len() ==> s[j] != c,
    decreases s.len(),
{
    if s.len() > 0 {
        lemma_count_char_zero(s.skip(1), c);
        assert forall|j: int| 0 <= j < s.len() implies s[j] != c by {
            if j > 0 {
                assert(s.skip(1)[j - 1] == s[j]);
                assert(s.skip(1)[j - 1] != c);
            }
        }
    }
}

proof fn lemma_count_char_concat(a: Seq<char>, b: Seq<char>, c: char)
    ensures
        count_char(a + b, c) == count_char(a, c) + count_char(b, c),
    decreases a.len(),
{
    if a.len() == 0 {
        assert(a + b =~= b);
        assert(count_char(a, c) == 0);
    } else {
        assert((a + b)[0] == a[0]);
        assert((a + b).skip(1) =~= a.skip(1) + b);
        lemma_count_char_concat(a.skip(1), b, c);
        assert(count_char(a + b, c) == (if a[0] == c {
            1nat
        } else {
            0nat
        }) + count_char(a.skip(1) + b, c));
        assert(count_char(a, c) == (if a[0] == c {
            1nat
        } else {
            0nat
        }) + count_char(a.skip(1), c));
    }
}

/// Merging the fan-out of a space-free token into the empty table appends one
/// entry per prefix, in prefix-length order.
proof fn lemma_fanout_merge(token: Seq<char>, w: u32, j: int)
    requires
        token.len() >= 1,
        0 <= j <= token.len() - 1,
    ensures
        merge_all(Seq::empty(), fanout(token, w).take(j)) =~= Seq::new(
            j as nat,
            |i: int| (token.take(i + 1), seq![(token.skip(i + 1), w)]),
        ),
    decreases j,
{
    let obs = fanout(token, w);
    if j == 0 {
        assert(obs.take(0) =~= Seq::<ObsModel>::empty());
        assert(merge_all(Seq::<EntryModel>::empty(), Seq::<ObsModel>::empty())
            == Seq::<EntryModel>::empty());
    } else {
        lemma_fanout_merge(token, w, j - 1);
        let prev = Seq::new((j - 1) as nat, |i: int| (token.take(i + 1), seq![(token.skip(i + 1), w)]));
        assert(obs[j - 1] == (token.take(j), token.skip(j), w));
        assert forall|m: int| 0 <= m < prev.len() implies prev[m].0 != token.take(j) by {
            assert(prev[m].0 == token.take(m + 1));
            assert(prev[m].0.len() == m + 1);
            assert(token.take(j).len() == j);
        }
        lemma_merge_obs_absent(prev, token.take(j), token.skip(j), w);
        crate::record::lemma_merge_all_push(Seq::empty(), obs.take(j - 1), obs[j - 1]);
        assert(obs.take(j) =~= obs.take(j - 1).push(obs[j - 1]));
        assert(merge_all(Seq::empty(), obs.take(j)) =~= prev.push(
            (token.take(j), seq![(token.skip(j), w)]),
        ));
        assert(prev.push((token.take(j), seq![(token.skip(j), w)])) =~= Seq::new(
            j as nat,
            |i: int| (token.take(i + 1), seq![(token.skip(i + 1), w)]),
        ));
    }
}

/// Prefix fan-out completeness: a space-free token of length L merged into an
/// empty table yields exactly L - 1 entries, one per non-empty, non-full
/// prefix, each holding the matching suffix alone, at the token's weight.
/// The keys are pairwise distinct, since their lengths differ.
pub proof fn lemma_prefix_fanout(token: Seq<char>, w: u32)
    requires
        count_char(token, ' ') == 0,
    ensures
        decompose(token, w) == Some(fanout(token, w)),
        ({
            let t = merge_all(Seq::empty(), fanout(token, w));
            &&& t.len() == (if token.len() == 0 {
                0int
            } else {
                token.len() - 1
            })
            &&& (forall|i: int|
                0 <= i < t.len() ==> t[i] == (token.take(i + 1), seq![(token.skip(i + 1), w)]))
            &&& (forall|i: int, j: int| 0 <= i < j < t.len() ==> t[i].0 != t[j].0)
        }),
{
    let obs = fanout(token, w);
    if token.len() == 0 {
        assert(obs =~= Seq::<ObsModel>::empty());
        assert(merge_all(Seq::<EntryModel>::empty(), Seq::<ObsModel>::empty())
            == Seq::<EntryModel>::empty());
    } else {
        lemma_fanout_merge(token, w, token.len() - 1);
        assert(obs.take(token.len() - 1) =~= obs);
        let t = merge_all(Seq::empty(), obs);
        assert forall|i: int, j: int| 0 <= i < j < t.len() implies t[i].0 != t[j].0 by {
            assert(t[i].0 == token.take(i + 1));
            assert(t[j].0 == token.take(j + 1));
            assert(t[i].0.len() == i + 1);
            assert(t[j].0.len() == j + 1);
        }
    }
}

/// Sentinel discard: a two-token key whose tail is the sentinel decomposes
/// into no observations at all, so merging it leaves any table unchanged.
pub proof fn lemma_sentinel_discard(t: TableModel, head: Seq<char>, w: u32)
    requires
        count_char(head, ' ') == 0,
    ensures
        decompose(head + seq![' '] + sentinel(), w) == Some(Seq::<ObsModel>::empty()),
        merge_all(t, Seq::<ObsModel>::empty()) == t,
{
    let key = head + seq![' '] + sentinel();
    lemma_count_char_concat(head + seq![' '], sentinel(), ' ');
    lemma_count_char_concat(head, seq![' '], ' ');
    assert(count_char(seq![' '], ' ') == 1) by {
        assert(seq![' '][0] == ' ');
        assert(seq![' '].skip(1) =~= Seq::<char>::empty());
        assert(count_char(Seq::<char>::empty(), ' ') == 0);
    }
    assert(count_char(sentinel(), ' ') == 0) by {
        assert(sentinel()[0] == '$');
        assert(sentinel().skip(1) =~= Seq::<char>::empty());
        assert(count_char(Seq::<char>::empty(), ' ') == 0);
    }
    assert(count_char(key, ' ') == 1);
    lemma_count_char_zero(head, ' ');
    assert(is_first_index_of(key, ' ', head.len() as int)) by {
        assert(key[head.len() as int] == ' ');
        assert(forall|j: int| 0 <= j < head.len() ==> key[j] == head[j]);
    }
    lemma_first_index_of(key, ' ', head.len() as int);
    assert(key.skip(head.len() as int + 1) =~= sentinel());
}

/// Cap correctness: ranking with cap `m` yields a sorted prefix of the sorted
/// permutation of the list, no longer than `m`, and every kept weight is at
/// least every left-out weight.
pub proof fn lemma_cap_correct(l: Seq<CandModel>, m: usize)
    ensures
        ({
            let s = sort_desc(l);
            let r = rank_model(l, Some(m));
            &&& r.len() == (if l.len() <= m {
                l.len() as int
            } else {
                m as int
            })
            &&& sorted_desc(s)
            &&& sorted_desc(r)
            &&& s.to_multiset() == l.to_multiset()
            &&& r =~= s.take(r.len() as int)
            &&& (forall|i: int, j: int|
                0 <= i < r.len() && r.len() <= j < s.len() ==> r[i].1 >= s[j].1)
        }),
{
    crate::rank::lemma_sort_desc(l);
    let s = sort_desc(l);
    let r = rank_model(l, Some(m));
    assert(r =~= s.take(r.len() as int));
}

/// The weight threshold a filter setting stands for: records strictly below
/// it are dropped, and an unset filter drops nothing.
pub open spec fn fval(f: Option<u32>) -> u32 {
    match f {
        None => 0,
        Some(x) => x,
    }
}

/// How a run with a raised filter relates to the original run, pairwise over
/// every (key, value): whatever the filtered run stores, the original run
/// stores at the same weight, and that weight clears the raised threshold;
/// and whatever the original run stores at a weight clearing the threshold,
/// the filtered run stores too.
pub open spec fn agree_at(
    t1: TableModel,
    t2: TableModel,
    f2: u32,
    k: Seq<char>,
    v: Seq<char>,
) -> bool {
    &&& (weight_of(t2, k, v) is Some ==> weight_of(t1, k, v) == weight_of(t2, k, v) && weight_of(
        t2,
        k,
        v,
    )->Some_0 >= f2)
    &&& (weight_of(t1, k, v) is Some && weight_of(t1, k, v)->Some_0 >= f2 ==> weight_of(t2, k, v)
        == weight_of(t1, k, v))
}

pub open spec fn filtered_agrees(t1: TableModel, t2: TableModel, f2: u32) -> bool {
    forall|k: Seq<char>, v: Seq<char>|
        #![trigger weight_of(t1, k, v)]
        #![trigger weight_of(t2, k, v)]
        agree_at(t1, t2, f2, k, v)
}

proof fn lemma_obs_step(
    t1: TableModel,
    t2: TableModel,
    key: Seq<char>,
    value: Seq<char>,
    w: u32,
    f2: u32,
)
    requires
        filtered_agrees(t1, t2, f2),
    ensures
        w >= f2 ==> filtered_agrees(
            merge_obs(t1, key, value, w),
            merge_obs(t2, key, value, w),
            f2,
        ),
        w < f2 ==> filtered_agrees(merge_obs(t1, key, value, w), t2, f2),
{
    let m1 = merge_obs(t1, key, value, w);
    let m2 = merge_obs(t2, key, value, w);
    if w >= f2 {
        assert forall|k: Seq<char>, v: Seq<char>|
            #![trigger weight_of(m1, k, v)]
            #![trigger weight_of(m2, k, v)]
            agree_at(m1, m2, f2, k, v) by {
            lemma_merge_weight(t1, key, value, w, k, v);
            lemma_merge_weight(t2, key, value, w, k, v);
            assert(agree_at(t1, t2, f2, k, v));
        }
    } else {
        assert forall|k: Seq<char>, v: Seq<char>|
            #![trigger weight_of(m1, k, v)]
            #![trigger weight_of(t2, k, v)]
            agree_at(m1, t2, f2, k, v) by {
            lemma_merge_weight(t1, key, value, w, k, v);
            assert(agree_at(t1, t2, f2, k, v));
        }
    }
}

proof fn lemma_obs_all_step(t1: TableModel, t2: TableModel, obs: Seq<ObsModel>, w: u32, f2: u32)
    requires
        filtered_agrees(t1, t2, f2),
        forall|i: int| 0 <= i < obs.len() ==> (#[trigger] obs[i]).2 == w,
    ensures
        w >= f2 ==> filtered_agrees(merge_all(t1, obs), merge_all(t2, obs), f2),
        w < f2 ==> filtered_agrees(merge_all(t1, obs), t2, f2),
    decreases obs.len(),
{
    if obs.len() == 0 {
    } else {
        lemma_obs_step(t1, t2, obs[0].0, obs[0].1, w, f2);
        if w >= f2 {
            lemma_obs_all_step(
                merge_obs(t1, obs[0].0, obs[0].1, obs[0].2),
                merge_obs(t2, obs[0].0, obs[0].1, obs[0].2),
                obs.skip(1),
                w,
                f2,
            );
        } else {
            lemma_obs_all_step(
                merge_obs(t1, obs[0].0, obs[0].1, obs[0].2),
                t2,
                obs.skip(1),
                w,
                f2,
            );
        }
    }
}

/// Every observation of one record carries the record's weight.
proof fn lemma_decompose_weights(key: Seq<char>, w: u32)
    ensures
        decompose(key, w) is Some ==> forall|i: int|
            0 <= i < decompose(key, w)->Some_0.len() ==> (#[trigger] decompose(
                key,
                w,
            )->Some_0[i]).2 == w,
{
}

proof fn lemma_line_step(
    t1: TableModel,
    t2: TableModel,
    line: Seq<char>,
    f1: Option<u32>,
    f2: Option<u32>,
)
    requires
        filtered_agrees(t1, t2, fval(f2)),
        fval(f1) <= fval(f2),
        line_outcome(t1, line, f1) is Ok,
    ensures
        line_outcome(t2, line, f2) is Ok,
        filtered_agrees(
            line_outcome(t1, line, f1)->Ok_0,
            line_outcome(t2, line, f2)->Ok_0,
            fval(f2),
        ),
{
    let ti = first_index_of(line, '\t');
    let w = parse_weight(line.skip(ti + 1))->Some_0;
    let key = line.take(ti);
    if filter_drops(f1, w) {
        assert(filter_drops(f2, w));
    } else {
        let obs = decompose(key, w)->Some_0;
        lemma_decompose_weights(key, w);
        if filter_drops(f2, w) {
            assert(w < fval(f2));
            lemma_obs_all_step(t1, t2, obs, w, fval(f2));
        } else {
            assert(w >= fval(f2));
            lemma_obs_all_step(t1, t2, obs, w, fval(f2));
        }
    }
}

proof fn lemma_filter_monotone_run(
    t1: TableModel,
    t2: TableModel,
    lines: Seq<Seq<char>>,
    f1: Option<u32>,
    f2: Option<u32>,
)
    requires
        filtered_agrees(t1, t2, fval(f2)),
        fval(f1) <= fval(f2),
        run_lines(t1, lines, f1) is Ok,
    ensures
        run_lines(t2, lines, f2) is Ok,
        filtered_agrees(
            run_lines(t1, lines, f1)->Ok_0,
            run_lines(t2, lines, f2)->Ok_0,
            fval(f2),
        ),
    decreases lines.len(),
{
    if lines.len() == 0 {
    } else {
        lemma_line_step(t1, t2, lines[0], f1, f2);
        lemma_filter_monotone_run(
            line_outcome(t1, lines[0], f1)->Ok_0,
            line_outcome(t2, lines[0], f2)->Ok_0,
            lines.skip(1),
            f1,
            f2,
        );
    }
}

/// Filter monotonicity, over the merged table: raising the filter weight
/// never adds a stored (key, value) pair and never changes the weight of a
/// pair that survives — it can only remove pairs. A run that completes with
/// the lower filter completes with the higher one.
///
/// This speaks of the table after merging, before ranking and truncation:
/// with a candidate cap set, two pairs tied at the same weight can change
/// which of them survives the cap when the filter is raised.
pub proof fn lemma_filter_monotone(lines: Seq<Seq<char>>, f1: Option<u32>, f2: Option<u32>)
    requires
        fval(f1) <= fval(f2),
        run_lines(Seq::empty(), lines, f1) is Ok,
    ensures
        run_lines(Seq::empty(), lines, f2) is Ok,
        forall|k: Seq<char>, v: Seq<char>|
            #![trigger weight_of(run_lines(Seq::empty(), lines, f2)->Ok_0, k, v)]
            weight_of(run_lines(Seq::empty(), lines, f2)->Ok_0, k, v) is Some ==> weight_of(
                run_lines(Seq::empty(), lines, f1)->Ok_0,
                k,
                v,
            ) == weight_of(run_lines(Seq::empty(), lines, f2)->Ok_0, k, v),
{
    let e = Seq::<EntryModel>::empty();
    assert forall|k: Seq<char>, v: Seq<char>|
        #![trigger weight_of(e, k, v)]
        agree_at(e, e, fval(f2), k, v) by {
        assert(weight_of(e, k, v) is None);
    }
    lemma_filter_monotone_run(e, e, lines, f1, f2);
}

/// In a well-formed list, a value is stored at weight `w` exactly when the
/// pair (value, w) occurs in the list.
proof fn lemma_list_weight_contains(l: Seq<CandModel>, v: Seq<char>, w: u32)
    requires
        list_wf(l),
    ensures
        list_weight_of(l, v) == Some(w) <==> l.contains((v, w)),
    decreases l.len(),
{
    if l.len() == 0 {
        assert(!l.contains((v, w)));
    } else if l[0].0 == v {
        if l.contains((v, w)) {
            let i = choose|i: int| 0 <= i < l.len() && l[i] == (v, w);
            if i > 0 {
                assert(l[0].0 != l[i].0);
                assert(false);
            }
        }
        if list_weight_of(l, v) == Some(w) {
            assert(l[0] == (v, w));
        }
    } else {
        assert(list_wf(l.skip(1)));
        lemma_list_weight_contains(l.skip(1), v, w);
        if l.contains((v, w)) {
            let i = choose|i: int| 0 <= i < l.len() && l[i] == (v, w);
            assert(i > 0);
            assert(l.skip(1)[i - 1] == (v, w));
            assert(l.skip(1).contains((v, w)));
        }
        if l.skip(1).contains((v, w)) {
            let i = choose|i: int| 0 <= i < l.skip(1).len() && l.skip(1)[i] == (v, w);
            assert(l[i + 1] == (v, w));
            assert(l.contains((v, w)));
        }
    }
}

/// Sorting a well-formed list stores the same weight for every value.
proof fn lemma_sort_preserves_weights(l: Seq<CandModel>, v: Seq<char>)
    requires
        list_wf(l),
    ensures
        list_wf(sort_desc(l)),
        list_weight_of(sort_desc(l), v) == list_weight_of(l, v),
{
    broadcast use vstd::seq_lib::group_to_multiset_ensures;

    crate::rank::lemma_sort_desc_wf(l);
    crate::rank::lemma_sort_desc(l);
    let s = sort_desc(l);
    match list_weight_of(l, v) {
        Some(w) => {
            lemma_list_weight_contains(l, v, w);
            assert(l.to_multiset().count((v, w)) > 0);
            assert(s.contains((v, w)));
            lemma_list_weight_contains(s, v, w);
        },
        None => {
            if list_weight_of(s, v) is Some {
                let w = list_weight_of(s, v)->Some_0;
                lemma_list_weight_contains(s, v, w);
                assert(s.to_multiset().count((v, w)) > 0);
                assert(l.contains((v, w)));
                lemma_list_weight_contains(l, v, w);
            }
        },
    }
}

/// Ranking without a cap keeps every stored (key, value, weight) of a
/// well-formed table: only the order within each list changes.
pub proof fn lemma_finalize_no_cap(t: TableModel, k: Seq<char>, v: Seq<char>)
    requires
        table_wf(t),
    ensures
        weight_of(finalize_model(t, None), k, v) == weight_of(t, k, v),
    decreases t.len(),
{
    let f = finalize_model(t, None);
    if t.len() == 0 {
        assert(f =~= Seq::<EntryModel>::empty());
    } else {
        assert(f[0] == (t[0].0, rank_model(t[0].1, None)));
        if t[0].0 == k {
            lemma_sort_preserves_weights(t[0].1, v);
        } else {
            assert(table_wf(t.skip(1))) by {
                assert(forall|i: int| 0 <= i < t.skip(1).len() ==> t.skip(1)[i] == t[i + 1]);
            }
            lemma_finalize_no_cap(t.skip(1), k, v);
            assert(f.skip(1) =~= finalize_model(t.skip(1), None));
        }
    }
}

proof fn lemma_merge_all_wf(t: TableModel, obs: Seq<ObsModel>)
    requires
        table_wf(t),
    ensures
        table_wf(merge_all(t, obs)),
    decreases obs.len(),
{
    if obs.len() > 0 {
        lemma_merge_preserves_wf(t, obs[0].0, obs[0].1, obs[0].2);
        lemma_merge_all_wf(merge_obs(t, obs[0].0, obs[0].1, obs[0].2), obs.skip(1));
    }
}

/// A completed run starting from a well-formed table leaves a well-formed
/// table: keys stay unique and values stay unique within each list.
pub proof fn lemma_run_lines_wf(t: TableModel, lines: Seq<Seq<char>>, f: Option<u32>)
    requires
        table_wf(t),
        run_lines(t, lines, f) is Ok,
    ensures
        table_wf(run_lines(t, lines, f)->Ok_0),
    decreases lines.len(),
{
    if lines.len() > 0 {
        let t2 = line_outcome(t, lines[0], f)->Ok_0;
        assert(table_wf(t2)) by {
            let ti = first_index_of(lines[0], '\t');
            let w = parse_weight(lines[0].skip(ti + 1))->Some_0;
            if !filter_drops(f, w) {
                lemma_merge_all_wf(t, decompose(lines[0].take(ti), w)->Some_0);
            }
        }
        lemma_run_lines_wf(t2, lines.skip(1), f);
    }
}

/// Filter monotonicity for the final, uncapped output: raising the filter
/// weight never adds a (key, value, weight) triple to the ranked tables —
/// whatever the run with the raised filter ends with, the original run ends
/// with too, at the same weight.
pub proof fn lemma_filter_monotone_final(lines: Seq<Seq<char>>, f1: Option<u32>, f2: Option<u32>)
    requires
        fval(f1) <= fval(f2),
        run_lines(Seq::empty(), lines, f1) is Ok,
    ensures
        run_lines(Seq::empty(), lines, f2) is Ok,
        forall|k: Seq<char>, v: Seq<char>|
            #![trigger weight_of(finalize_model(run_lines(Seq::empty(), lines, f2)->Ok_0, None), k, v)]
            weight_of(finalize_model(run_lines(Seq::empty(), lines, f2)->Ok_0, None), k, v)
                is Some ==> weight_of(
                finalize_model(run_lines(Seq::empty(), lines, f1)->Ok_0, None),
                k,
                v,
            ) == weight_of(finalize_model(run_lines(Seq::empty(), lines, f2)->Ok_0, None), k, v),
{
    let e = Seq::<EntryModel>::empty();
    lemma_filter_monotone(lines, f1, f2);
    let t1 = run_lines(e, lines, f1)->Ok_0;
    let t2 = run_lines(e, lines, f2)->Ok_0;
    assert(table_wf(e));
    lemma_run_lines_wf(e, lines, f1);
    lemma_run_lines_wf(e, lines, f2);
    assert forall|k: Seq<char>, v: Seq<char>|
        #![trigger weight_of(finalize_model(t2, None), k, v)]
        weight_of(finalize_model(t2, None), k, v) is Some ==> weight_of(
        finalize_model(t1, None),
        k,
        v,
    ) == weight_of(finalize_model(t2, None), k, v) by {
        lemma_finalize_no_cap(t1, k, v);
        lemma_finalize_no_cap(t2, k, v);
    }
}

} // verus!
