//! The candidate table and the merge-insert operation.
//!
//! The table maps keys to candidate lists; a candidate is a (value, weight)
//! pair. Keys are unique, values are unique within a key's list, and the
//! stored weight of a (key, value) pair is the maximum weight observed for
//! that pair so far.

use vstd::prelude::*;

verus! {

/// A stored candidate: a continuation value and its weight.
pub type Candidate = (String, u32);

/// A table entry: a key together with its candidate list.
pub type Entry = (String, Vec<Candidate>);

/// Spec-level candidate: (value, weight).
pub type CandModel = (Seq<char>, u32);

/// Spec-level entry: (key, candidate list).
pub type EntryModel = (Seq<char>, Seq<CandModel>);

/// Spec-level table: entries in key insertion order.
pub type TableModel = Seq<EntryModel>;

/// The candidate table: entries in key insertion order.
pub struct CandidateTable {
    pub entries: Vec<Entry>,
}

impl View for CandidateTable {
    type V = TableModel;

    open spec fn view(&self) -> TableModel {
        self.entries.deep_view()
    }
}

/// Values are unique within a candidate list.
pub open spec fn list_wf(l: Seq<CandModel>) -> bool {
    forall|i: int, j: int| 0 <= i < j < l.len() ==> l[i].0 != l[j].0
}

/// Keys are unique, and every candidate list is well formed.
pub open spec fn table_wf(t: TableModel) -> bool {
    &&& forall|i: int, j: int| 0 <= i < j < t.len() ==> t[i].0 != t[j].0
    &&& forall|i: int| 0 <= i < t.len() ==> list_wf(#[trigger] t[i].1)
}

/// A candidate after observing weight `w` for its value: the stored weight
/// is raised to `w` when `w` is strictly greater, otherwise kept.
pub open spec fn bump(c: CandModel, w: u32) -> CandModel {
    if c.1 < w {
        (c.0, w)
    } else {
        c
    }
}

/// Merge one observation of (value, w) into a candidate list: the first
/// candidate holding `value` is bumped; if none holds it, (value, w) is
/// appended.
pub open spec fn merge_list(l: Seq<CandModel>, value: Seq<char>, w: u32) -> Seq<CandModel>
    decreases l.len(),
{
    if l.len() == 0 {
        seq![(value, w)]
    } else if l[0].0 == value {
        seq![bump(l[0], w)] + l.skip(1)
    } else {
        seq![l[0]] + merge_list(l.skip(1), value, w)
    }
}

/// Merge one observation of (key, value, w) into the table: the first entry
/// holding `key` has its list merged; if none holds it, a new entry with a
/// singleton list is appended.
pub open spec fn merge_obs(t: TableModel, key: Seq<char>, value: Seq<char>, w: u32) -> TableModel
    decreases t.len(),
{
    if t.len() == 0 {
        seq![(key, seq![(value, w)])]
    } else if t[0].0 == key {
        seq![(t[0].0, merge_list(t[0].1, value, w))] + t.skip(1)
    } else {
        seq![t[0]] + merge_obs(t.skip(1), key, value, w)
    }
}

/// The weight stored for `value` in a candidate list, if any.
pub open spec fn list_weight_of(l: Seq<CandModel>, value: Seq<char>) -> Option<u32>
    decreases l.len(),
{
    if l.len() == 0 {
        None
    } else if l[0].0 == value {
        Some(l[0].1)
    } else {
        list_weight_of(l.skip(1), value)
    }
}

/// The weight stored for (key, value) in the table, if any.
pub open spec fn weight_of(t: TableModel, key: Seq<char>, value: Seq<char>) -> Option<u32>
    decreases t.len(),
{
    if t.len() == 0 {
        None
    } else if t[0].0 == key {
        list_weight_of(t[0].1, value)
    } else {
        weight_of(t.skip(1), key, value)
    }
}

/// Character-for-character string equality.
pub fn str_eq(a: &str, b: &str) -> (r: bool)
    ensures
        r == (a@ == b@),
{
    let alen = a.unicode_len();
    let blen = b.unicode_len();
    if alen != blen {
        return false;
    }
    let mut i: usize = 0;
    while i < alen
        invariant
            0 <= i <= alen,
            alen == a@.len(),
            alen == b@.len(),
            forall|j: int| 0 <= j < i ==> a@[j] == b@[j],
        decreases alen - i,
    {
        if a.get_char(i) != b.get_char(i) {
            return false;
        }
        i += 1;
    }
    proof {
        assert(a@ =~= b@);
    }
    true
}

/// When the first `i` entries do not hold `key` and entry `i` does, merging
/// rewrites exactly entry `i`.
proof fn lemma_merge_obs_found(t: TableModel, key: Seq<char>, value: Seq<char>, w: u32, i: int)
    requires
        0 <= i < t.len(),
        t[i].0 == key,
        forall|j: int| 0 <= j < i ==> t[j].0 != key,
    ensures
        merge_obs(t, key, value, w) =~= t.update(i, (t[i].0, merge_list(t[i].1, value, w))),
    decreases i,
{
    if i == 0 {
        assert(merge_obs(t, key, value, w) =~= t.update(
            0,
            (t[0].0, merge_list(t[0].1, value, w)),
        ));
    } else {
        lemma_merge_obs_found(t.skip(1), key, value, w, i - 1);
        assert(seq![t[0]] + t.skip(1).update(i - 1, (t[i].0, merge_list(t[i].1, value, w)))
            =~= t.update(i, (t[i].0, merge_list(t[i].1, value, w))));
    }
}

/// When no entry holds `key`, merging appends a fresh singleton entry.
pub proof fn lemma_merge_obs_absent(t: TableModel, key: Seq<char>, value: Seq<char>, w: u32)
    requires
        forall|j: int| 0 <= j < t.len() ==> t[j].0 != key,
    ensures
        merge_obs(t, key, value, w) =~= t.push((key, seq![(value, w)])),
    decreases t.len(),
{
    if t.len() == 0 {
    } else {
        lemma_merge_obs_absent(t.skip(1), key, value, w);
        assert(seq![t[0]] + t.skip(1).push((key, seq![(value, w)])) =~= t.push(
            (key, seq![(value, w)]),
        ));
    }
}

/// When the first `j` candidates do not hold `value` and candidate `j` does,
/// merging bumps exactly candidate `j`.
proof fn lemma_merge_list_found(l: Seq<CandModel>, value: Seq<char>, w: u32, j: int)
    requires
        0 <= j < l.len(),
        l[j].0 == value,
        forall|m: int| 0 <= m < j ==> l[m].0 != value,
    ensures
        merge_list(l, value, w) =~= l.update(j, bump(l[j], w)),
    decreases j,
{
    if j == 0 {
        assert(merge_list(l, value, w) =~= l.update(0, bump(l[0], w)));
    } else {
        lemma_merge_list_found(l.skip(1), value, w, j - 1);
        assert(seq![l[0]] + l.skip(1).update(j - 1, bump(l[j], w)) =~= l.update(j, bump(l[j], w)));
    }
}

/// When no candidate holds `value`, merging appends (value, w).
proof fn lemma_merge_list_absent(l: Seq<CandModel>, value: Seq<char>, w: u32)
    requires
        forall|m: int| 0 <= m < l.len() ==> l[m].0 != value,
    ensures
        merge_list(l, value, w) =~= l.push((value, w)),
    decreases l.len(),
{
    if l.len() == 0 {
    } else {
        lemma_merge_list_absent(l.skip(1), value, w);
        assert(seq![l[0]] + l.skip(1).push((value, w)) =~= l.push((value, w)));
    }
}

/// Merging keeps values unique within a list.
proof fn lemma_merge_list_wf(l: Seq<CandModel>, value: Seq<char>, w: u32)
    requires
        list_wf(l),
    ensures
        list_wf(merge_list(l, value, w)),
{
    if exists|j: int| 0 <= j < l.len() && (#[trigger] l[j]).0 == value {
        let j = choose|j: int| 0 <= j < l.len() && (#[trigger] l[j]).0 == value;
        assert forall|m: int| 0 <= m < j implies l[m].0 != value by {
            assert(l[m].0 != l[j].0);
        }
        lemma_merge_list_found(l, value, w, j);
        let r = l.update(j, bump(l[j], w));
        assert forall|a: int, b: int| 0 <= a < b < r.len() implies r[a].0 != r[b].0 by {
            assert(r[a].0 == l[a].0);
            assert(r[b].0 == l[b].0);
        }
    } else {
        lemma_merge_list_absent(l, value, w);
        let r = l.push((value, w));
        assert forall|a: int, b: int| 0 <= a < b < r.len() implies r[a].0 != r[b].0 by {
            assert(r[a] == l[a]);
            if b < l.len() {
                assert(r[b] == l[b]);
            } else {
                assert(r[b].0 == value);
                assert(l[a].0 != value);
            }
        }
    }
}

/// Merging keeps keys unique and every list well formed: the table invariant
/// is preserved by every observation.
pub proof fn lemma_merge_preserves_wf(t: TableModel, key: Seq<char>, value: Seq<char>, w: u32)
    requires
        table_wf(t),
    ensures
        table_wf(merge_obs(t, key, value, w)),
{
    if exists|i: int| 0 <= i < t.len() && (#[trigger] t[i]).0 == key {
        let i = choose|i: int| 0 <= i < t.len() && (#[trigger] t[i]).0 == key;
        assert forall|m: int| 0 <= m < i implies t[m].0 != key by {
            assert(t[m].0 != t[i].0);
        }
        lemma_merge_obs_found(t, key, value, w, i);
        lemma_merge_list_wf(t[i].1, value, w);
        let r = t.update(i, (t[i].0, merge_list(t[i].1, value, w)));
        assert forall|a: int, b: int| 0 <= a < b < r.len() implies r[a].0 != r[b].0 by {
            assert(r[a].0 == t[a].0);
            assert(r[b].0 == t[b].0);
        }
    } else {
        lemma_merge_obs_absent(t, key, value, w);
        let r = t.push((key, seq![(value, w)]));
        assert forall|a: int, b: int| 0 <= a < b < r.len() implies r[a].0 != r[b].0 by {
            assert(r[a] == t[a]);
            if b < t.len() {
                assert(r[b] == t[b]);
            } else {
                assert(r[b].0 == key);
                assert(t[a].0 != key);
            }
        }
        assert forall|a: int| 0 <= a < r.len() implies list_wf(#[trigger] r[a].1) by {
            if a < t.len() {
                assert(r[a] == t[a]);
            } else {
                assert(r[a].1 =~= seq![(value, w)]);
            }
        }
    }
}

/// Merge one observation of (value, weight) into a candidate list in place.
fn merge_into_list(l: &mut Vec<Candidate>, value: &str, weight: u32)
    ensures
        final(l).deep_view() == merge_list(old(l).deep_view(), value@, weight),
{
    let n = l.len();
    let mut j: usize = 0;
    while j < n
        invariant
            0 <= j <= n,
            n == l.len(),
            l == old(l),
            forall|m: int| 0 <= m < j ==> old(l).deep_view()[m].0 != value@,
        decreases n - j,
    {
        if str_eq(l[j].0.as_str(), value) {
            let mut c = l.remove(j);
            if c.1 < weight {
                c.1 = weight;
            }
            proof {
                assert(old(l).deep_view()[j as int] == (old(l)@[j as int].0@, old(
                    l,
                )@[j as int].1));
                assert((c.0@, c.1) == bump(old(l).deep_view()[j as int], weight));
            }
            l.insert(j, c);
            proof {
                lemma_merge_list_found(old(l).deep_view(), value@, weight, j as int);
                assert(l.deep_view() =~= old(l).deep_view().update(
                    j as int,
                    bump(old(l).deep_view()[j as int], weight),
                ));
            }
            return ;
        }
        j += 1;
    }
    l.push((value.to_owned(), weight));
    proof {
        lemma_merge_list_absent(old(l).deep_view(), value@, weight);
        assert(l.deep_view() =~= old(l).deep_view().push((value@, weight)));
    }
}

/// Merge one observation of (key, value, weight) into the table.
///
/// If the key is absent a new entry with a singleton list is appended; if the
/// key is present but the value is absent the pair is appended to its list;
/// if both are present the stored weight is raised to `weight` only when
/// `weight` is strictly greater.
pub fn add_record(data: &mut CandidateTable, key: &str, value: &str, weight: u32)
    ensures
        final(data)@ == merge_obs(old(data)@, key@, value@, weight),
        table_wf(old(data)@) ==> table_wf(final(data)@),
{
    let n = data.entries.len();
    let mut i: usize = 0;
    while i < n
        invariant
            0 <= i <= n,
            n == data.entries.len(),
            data == old(data),
            forall|j: int| 0 <= j < i ==> old(data)@[j].0 != key@,
        decreases n - i,
    {
        if str_eq(data.entries[i].0.as_str(), key) {
            let mut e = data.entries.remove(i);
            merge_into_list(&mut e.1, value, weight);
            proof {
                assert((e.0@, e.1.deep_view()) == (old(data)@[i as int].0, merge_list(
                    old(data)@[i as int].1,
                    value@,
                    weight,
                )));
            }
            data.entries.insert(i, e);
            proof {
                lemma_merge_obs_found(old(data)@, key@, value@, weight, i as int);
                assert(data@ =~= old(data)@.update(
                    i as int,
                    (old(data)@[i as int].0, merge_list(old(data)@[i as int].1, value@, weight)),
                ));
                assert(data@ =~~= merge_obs(old(data)@, key@, value@, weight));
                if table_wf(old(data)@) {
                    lemma_merge_preserves_wf(old(data)@, key@, value@, weight);
                }
            }
            return ;
        }
        i += 1;
    }
    let mut cl: Vec<Candidate> = Vec::new();
    cl.push((value.to_owned(), weight));
    data.entries.push((key.to_owned(), cl));
    proof {
        lemma_merge_obs_absent(old(data)@, key@, value@, weight);
        assert(data@ =~~= old(data)@.push((key@, seq![(value@, weight)])));
        assert(data@ =~~= merge_obs(old(data)@, key@, value@, weight));
        if table_wf(old(data)@) {
            lemma_merge_preserves_wf(old(data)@, key@, value@, weight);
        }
    }
}

/// The weight currently stored for (key, value), if any.
pub fn get_weight(data: &CandidateTable, key: &str, value: &str) -> (r: Option<u32>)
    ensures
        r == weight_of(data@, key@, value@),
{
    let n = data.entries.len();
    let mut i: usize = 0;
    proof {
        assert(data@.skip(0) =~= data@);
    }
    while i < n
        invariant
            0 <= i <= n,
            n == data.entries.len(),
            forall|j: int| 0 <= j < i ==> data@[j].0 != key@,
            weight_of(data@, key@, value@) == weight_of(data@.skip(i as int), key@, value@),
        decreases n - i,
    {
        if str_eq(data.entries[i].0.as_str(), key) {
            let r = list_get_weight(&data.entries[i].1, value);
            proof {
                assert(data@.skip(i as int)[0] == data@[i as int]);
            }
            return r;
        }
        proof {
            assert(data@.skip(i as int)[0] == data@[i as int]);
            assert(data@.skip(i as int).skip(1) =~= data@.skip(i as int + 1));
        }
        i += 1;
    }
    proof {
        assert(data@.skip(n as int) =~= Seq::<EntryModel>::empty());
    }
    None
}

/// The weight stored for `value` in one candidate list, if any.
fn list_get_weight(l: &Vec<Candidate>, value: &str) -> (r: Option<u32>)
    ensures
        r == list_weight_of(l.deep_view(), value@),
{
    let n = l.len();
    let mut j: usize = 0;
    proof {
        assert(l.deep_view().skip(0) =~= l.deep_view());
    }
    while j < n
        invariant
            0 <= j <= n,
            n == l.len(),
            list_weight_of(l.deep_view(), value@) == list_weight_of(
                l.deep_view().skip(j as int),
                value@,
            ),
        decreases n - j,
    {
        if str_eq(l[j].0.as_str(), value) {
            proof {
                assert(l.deep_view().skip(j as int)[0] == l.deep_view()[j as int]);
            }
            return Some(l[j].1);
        }
        proof {
            assert(l.deep_view().skip(j as int)[0] == l.deep_view()[j as int]);
            assert(l.deep_view().skip(j as int).skip(1) =~= l.deep_view().skip(j as int + 1));
        }
        j += 1;
    }
    proof {
        assert(l.deep_view().skip(n as int) =~= Seq::<CandModel>::empty());
    }
    None
}

} // verus!
