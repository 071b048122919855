//! Record decoding and decomposition.
//!
//! An input line holds a compound key and a decimal weight separated by one
//! tab. A compound key with exactly one space is a two-token phrase: it
//! yields one observation (head, tail, weight), unless the tail is the
//! sentinel `$`, which yields none. A key without a space is a single token:
//! it yields one observation per non-empty, non-full prefix. Any other field
//! or token count is a format violation.

use vstd::prelude::*;

use crate::table::{add_record, merge_obs, str_eq, CandidateTable, TableModel};

verus! {

/// Why a run was aborted.
#[derive(Clone, Copy, Debug, PartialEq, Eq, Structural)]
pub enum PredictError {
    /// A line does not have exactly two tab-separated fields, or a phrase
    /// key does not have exactly two space-separated tokens.
    FormatError,
    /// The weight field is not a decimal integer fitting in 32 bits.
    WeightParseError,
}

/// A candidate observation: (key, value, weight).
pub type ObsModel = (Seq<char>, Seq<char>, u32);

/// How many times `c` occurs in `s`.
pub open spec fn count_char(s: Seq<char>, c: char) -> nat
    decreases s.len(),
{
    if s.len() == 0 {
        0
    } else {
        (if s[0] == c {
            1nat
        } else {
            0nat
        }) + count_char(s.skip(1), c)
    }
}

/// `i` is the position of the first occurrence of `c` in `s`.
pub open spec fn is_first_index_of(s: Seq<char>, c: char, i: int) -> bool {
    &&& 0 <= i < s.len()
    &&& s[i] == c
    &&& forall|j: int| 0 <= j < i ==> s[j] != c
}

/// The position of the first occurrence of `c` in `s` (meaningful only when
/// `c` occurs).
pub open spec fn first_index_of(s: Seq<char>, c: char) -> int {
    choose|i: int| is_first_index_of(s, c, i)
}

pub proof fn lemma_first_index_of(s: Seq<char>, c: char, i: int)
    requires
        is_first_index_of(s, c, i),
    ensures
        first_index_of(s, c) == i,
{
    let i0 = first_index_of(s, c);
    assert(is_first_index_of(s, c, i0));
    if i0 < i {
        assert(false);
    } else if i < i0 {
        assert(false);
    }
}

proof fn lemma_count_char_push(s: Seq<char>, x: char, c: char)
    ensures
        count_char(s.push(x), c) == count_char(s, c) + (if x == c {
            1nat
        } else {
            0nat
        }),
    decreases s.len(),
{
    if s.len() == 0 {
        assert(s.push(x)[0] == x);
        assert(s.push(x).skip(1) =~= Seq::<char>::empty());
        assert(count_char(Seq::<char>::empty(), c) == 0);
        assert(count_char(s, c) == 0);
    } else {
        assert(s.push(x)[0] == s[0]);
        assert(s.push(x).skip(1) =~= s.skip(1).push(x));
        lemma_count_char_push(s.skip(1), x, c);
        assert(count_char(s.push(x), c) == (if s[0] == c {
            1nat
        } else {
            0nat
        }) + count_char(s.skip(1).push(x), c));
        assert(count_char(s, c) == (if s[0] == c {
            1nat
        } else {
            0nat
        }) + count_char(s.skip(1), c));
    }
}

/// Count the occurrences of `c` in `s`, and find the first one.
///
/// The second component is meaningful only when the count is positive.
fn count_and_find(s: &str, c: char) -> (r: (usize, usize))
    ensures
        r.0 == count_char(s@, c),
        r.0 > 0 ==> is_first_index_of(s@, c, r.1 as int),
{
    let len = s.unicode_len();
    let mut cnt: usize = 0;
    let mut fidx: usize = 0;
    let mut i: usize = 0;
    proof {
        assert(s@.take(0) =~= Seq::<char>::empty());
    }
    while i < len
        invariant
            0 <= i <= len,
            len == s@.len(),
            cnt <= i,
            cnt == count_char(s@.take(i as int), c),
            cnt == 0 ==> forall|j: int| 0 <= j < i ==> s@[j] != c,
            cnt > 0 ==> is_first_index_of(s@, c, fidx as int),
        decreases len - i,
    {
        let ch = s.get_char(i);
        proof {
            assert(s@.take(i + 1) =~= s@.take(i as int).push(s@[i as int]));
            lemma_count_char_push(s@.take(i as int), s@[i as int], c);
        }
        if ch == c {
            if cnt == 0 {
                fidx = i;
            }
            cnt = cnt + 1;
        }
        i += 1;
    }
    proof {
        assert(s@.take(len as int) =~= s@);
    }
    (cnt, fidx)
}

/// `c` is a decimal digit.
pub open spec fn is_digit(c: char) -> bool {
    48 <= c as u32 <= 57
}

/// The numeric value of a digit character.
pub open spec fn char_val(c: char) -> int {
    c as u32 - 48
}

/// `s` is a non-empty run of decimal digits.
pub open spec fn is_digits(s: Seq<char>) -> bool {
    s.len() > 0 && forall|i: int| 0 <= i < s.len() ==> is_digit(#[trigger] s[i])
}

/// The number denoted by a digit string.
pub open spec fn str_to_int(s: Seq<char>) -> int
    decreases s.len(),
{
    if s.len() == 0 {
        0
    } else {
        str_to_int(s.drop_last()) * 10 + char_val(s.last())
    }
}

/// The weight denoted by `s`: a non-empty digit string whose value fits in
/// 32 bits, or nothing.
pub open spec fn parse_weight(s: Seq<char>) -> Option<u32> {
    if is_digits(s) && str_to_int(s) <= u32::MAX {
        Some(str_to_int(s) as u32)
    } else {
        None
    }
}

/// A digit string's value only grows as the string is extended.
proof fn lemma_str_to_int_grows(s: Seq<char>, j: int)
    requires
        0 <= j <= s.len(),
        forall|i: int| 0 <= i < s.len() ==> is_digit(#[trigger] s[i]),
    ensures
        0 <= str_to_int(s.take(j)) <= str_to_int(s),
    decreases s.len() - j,
{
    if j == s.len() {
        assert(s.take(j) =~= s);
        lemma_str_to_int_nonneg(s);
    } else {
        lemma_str_to_int_grows(s, j + 1);
        assert(s.take(j + 1).drop_last() =~= s.take(j));
        assert(s.take(j + 1).last() == s[j]);
        lemma_str_to_int_nonneg(s.take(j));
    }
}

proof fn lemma_str_to_int_nonneg(s: Seq<char>)
    requires
        forall|i: int| 0 <= i < s.len() ==> is_digit(#[trigger] s[i]),
    ensures
        str_to_int(s) >= 0,
    decreases s.len(),
{
    if s.len() > 0 {
        assert(forall|i: int| 0 <= i < s.drop_last().len() ==> is_digit(#[trigger] s.drop_last()[i]));
        lemma_str_to_int_nonneg(s.drop_last());
    }
}

/// Parse a non-empty decimal digit string into a 32-bit weight.
fn parse_weight_exec(s: &str) -> (r: Option<u32>)
    ensures
        r == parse_weight(s@),
{
    let len = s.unicode_len();
    if len == 0 {
        return None;
    }
    let mut acc: u32 = 0;
    let mut i: usize = 0;
    proof {
        assert(s@.take(0) =~= Seq::<char>::empty());
    }
    while i < len
        invariant
            0 <= i <= len,
            len == s@.len(),
            forall|m: int| 0 <= m < i ==> is_digit(#[trigger] s@[m]),
            acc as int == str_to_int(s@.take(i as int)),
        decreases len - i,
    {
        let c = s.get_char(i);
        let cv = c as u32;
        if cv < 48 || cv > 57 {
            proof {
                assert(!is_digit(s@[i as int]));
                assert(!is_digits(s@));
            }
            return None;
        }
        let d = cv - 48;
        proof {
            assert(s@.take(i + 1).drop_last() =~= s@.take(i as int));
            assert(s@.take(i + 1).last() == s@[i as int]);
        }
        if acc > (u32::MAX - d) / 10 {
            proof {
                vstd::arithmetic::div_mod::lemma_fundamental_div_mod(
                    u32::MAX as int - d as int,
                    10,
                );
                assert(str_to_int(s@.take(i + 1)) > u32::MAX);
                if is_digits(s@) {
                    lemma_str_to_int_grows(s@, i + 1);
                    assert(str_to_int(s@) > u32::MAX);
                }
            }
            return None;
        }
        proof {
            vstd::arithmetic::div_mod::lemma_fundamental_div_mod(u32::MAX as int - d as int, 10);
            assert(acc as int * 10 + d as int <= u32::MAX);
        }
        acc = acc * 10 + d;
        i += 1;
    }
    proof {
        assert(s@.take(len as int) =~= s@);
        assert(is_digits(s@));
    }
    Some(acc)
}

/// The end-of-sequence marker: a tail equal to it carries no continuation.
pub open spec fn sentinel() -> Seq<char> {
    seq!['$']
}

/// The observations implied by a single token: one per non-empty, non-full
/// prefix, each at the token's weight.
pub open spec fn fanout(key: Seq<char>, w: u32) -> Seq<ObsModel> {
    if key.len() == 0 {
        Seq::empty()
    } else {
        Seq::new((key.len() - 1) as nat, |i: int| (key.take(i + 1), key.skip(i + 1), w))
    }
}

/// Decompose a compound key at weight `w` into its observations, or nothing
/// when the key is malformed (more than one space).
pub open spec fn decompose(key: Seq<char>, w: u32) -> Option<Seq<ObsModel>> {
    let spaces = count_char(key, ' ');
    if spaces == 0 {
        Some(fanout(key, w))
    } else if spaces == 1 {
        let i = first_index_of(key, ' ');
        if key.skip(i + 1) == sentinel() {
            Some(Seq::empty())
        } else {
            Some(seq![(key.take(i), key.skip(i + 1), w)])
        }
    } else {
        None
    }
}

/// Merge a sequence of observations into the table, in order.
pub open spec fn merge_all(t: TableModel, obs: Seq<ObsModel>) -> TableModel
    decreases obs.len(),
{
    if obs.len() == 0 {
        t
    } else {
        merge_all(merge_obs(t, obs[0].0, obs[0].1, obs[0].2), obs.skip(1))
    }
}

pub proof fn lemma_merge_all_push(t: TableModel, obs: Seq<ObsModel>, o: ObsModel)
    ensures
        merge_all(t, obs.push(o)) == merge_obs(merge_all(t, obs), o.0, o.1, o.2),
    decreases obs.len(),
{
    if obs.len() == 0 {
        assert(obs.push(o)[0] == o);
        assert(obs.push(o).skip(1) =~= Seq::<ObsModel>::empty());
        assert(merge_all(merge_obs(t, o.0, o.1, o.2), Seq::<ObsModel>::empty()) == merge_obs(
            t,
            o.0,
            o.1,
            o.2,
        ));
        assert(merge_all(t, obs) == t);
    } else {
        assert(obs.push(o)[0] == obs[0]);
        assert(obs.push(o).skip(1) =~= obs.skip(1).push(o));
        lemma_merge_all_push(merge_obs(t, obs[0].0, obs[0].1, obs[0].2), obs.skip(1), o);
        assert(merge_all(t, obs.push(o)) == merge_all(
            merge_obs(t, obs[0].0, obs[0].1, obs[0].2),
            obs.skip(1).push(o),
        ));
        assert(merge_all(t, obs) == merge_all(
            merge_obs(t, obs[0].0, obs[0].1, obs[0].2),
            obs.skip(1),
        ));
    }
}

/// The record is dropped before decomposition: the filter is set and the
/// weight falls strictly below it.
pub open spec fn filter_drops(filter: Option<u32>, w: u32) -> bool {
    match filter {
        Some(f) => w < f,
        None => false,
    }
}

/// What one input line does to the table: the new table, or the error that
/// aborts the run.
pub open spec fn line_outcome(t: TableModel, line: Seq<char>, filter: Option<u32>) -> Result<
    TableModel,
    PredictError,
> {
    if count_char(line, '\t') != 1 {
        Err(PredictError::FormatError)
    } else {
        let ti = first_index_of(line, '\t');
        match parse_weight(line.skip(ti + 1)) {
            None => Err(PredictError::WeightParseError),
            Some(w) => if filter_drops(filter, w) {
                Ok(t)
            } else {
                match decompose(line.take(ti), w) {
                    None => Err(PredictError::FormatError),
                    Some(obs) => Ok(merge_all(t, obs)),
                }
            },
        }
    }
}

/// Decode one input line and merge its observations into the table.
///
/// The line must hold exactly two tab-separated fields; the second must be a
/// decimal weight fitting in 32 bits. A record below the filter weight is
/// dropped whole. A phrase key must split into exactly two tokens on its
/// single space; a `$` tail discards the record; a single token fans out
/// into every prefix split. On an error the table is left unchanged.
pub fn process_line(table: &mut CandidateTable, line: &str, filter_weight: Option<u32>) -> (r:
    Result<(), PredictError>)
    ensures
        ({
            let out = line_outcome(old(table)@, line@, filter_weight);
            match out {
                Ok(m) => r is Ok && final(table)@ == m,
                Err(e) => r == Err::<(), PredictError>(e) && final(table)@ == old(table)@,
            }
        }),
{
    let len = line.unicode_len();
    let (tcount, tidx) = count_and_find(line, '\t');
    if tcount != 1 {
        return Err(PredictError::FormatError);
    }
    proof {
        lemma_first_index_of(line@, '\t', tidx as int);
    }
    let key = line.substring_char(0, tidx);
    let field = line.substring_char(tidx + 1, len);
    proof {
        assert(key@ =~= line@.take(tidx as int));
        assert(field@ =~= line@.skip(tidx + 1));
    }
    let w = match parse_weight_exec(field) {
        None => {
            return Err(PredictError::WeightParseError);
        },
        Some(w) => w,
    };
    if let Some(f) = filter_weight {
        if w < f {
            return Ok(());
        }
    }
    let klen = key.unicode_len();
    let (scount, sidx) = count_and_find(key, ' ');
    if scount == 0 {
        // single token: one observation per prefix split
        let ghost t0 = table@;
        let ghost obs = fanout(key@, w);
        let mut i: usize = 1;
        proof {
            assert(obs.take(0) =~= Seq::<ObsModel>::empty());
        }
        while i < klen
            invariant
                1 <= i,
                klen == key@.len(),
                i - 1 <= obs.len(),
                obs == fanout(key@, w),
                table@ == merge_all(t0, obs.take(i - 1)),
            decreases klen - i,
        {
            let k = key.substring_char(0, i);
            let v = key.substring_char(i, klen);
            add_record(table, k, v, w);
            proof {
                assert(k@ =~= key@.take(i as int));
                assert(v@ =~= key@.skip(i as int));
                assert(obs[i - 1] == (key@.take(i as int), key@.skip(i as int), w));
                lemma_merge_all_push(t0, obs.take(i - 1), obs[i - 1]);
                assert(obs.take(i as int) =~= obs.take(i - 1).push(obs[i - 1]));
            }
            i += 1;
        }
        proof {
            if klen >= 2 {
                assert(obs.take(klen - 1) =~= obs);
            } else {
                assert(obs.take(0) =~= obs);
            }
        }
        return Ok(());
    }
    if scount != 1 {
        return Err(PredictError::FormatError);
    }
    proof {
        lemma_first_index_of(key@, ' ', sidx as int);
        reveal_strlit("$");
        assert("$"@ =~= sentinel());
    }
    let head = key.substring_char(0, sidx);
    let tail = key.substring_char(sidx + 1, klen);
    proof {
        assert(head@ =~= key@.take(sidx as int));
        assert(tail@ =~= key@.skip(sidx + 1));
    }
    if str_eq(tail, "$") {
        proof {
            assert(merge_all(old(table)@, Seq::<ObsModel>::empty()) == old(table)@);
        }
        return Ok(());
    }
    add_record(table, head, tail, w);
    proof {
        let ob = (head@, tail@, w);
        assert(seq![ob][0] == ob);
        assert(seq![ob].skip(1) =~= Seq::<ObsModel>::empty());
        assert(merge_all(old(table)@, seq![ob]) == merge_all(
            merge_obs(old(table)@, ob.0, ob.1, ob.2),
            seq![ob].skip(1),
        ));
        assert(merge_all(merge_obs(old(table)@, ob.0, ob.1, ob.2), Seq::<ObsModel>::empty())
            == merge_obs(old(table)@, ob.0, ob.1, ob.2));
    }
    Ok(())
}

} // verus!
