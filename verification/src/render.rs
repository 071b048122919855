//! Output rendering: one tab-separated line per surviving candidate.

use vstd::prelude::*;

use crate::table::{CandidateTable, EntryModel, TableModel};

verus! {

/// The character for the decimal digit `d`.
pub open spec fn digit_char(d: int) -> char {
    ((48 + d) as u8) as char
}

/// The decimal representation of `n`, most significant digit first.
pub open spec fn u32_dec(n: nat) -> Seq<char>
    decreases n,
{
    if n < 10 {
        seq![digit_char(n as int)]
    } else {
        u32_dec(n / 10).push(digit_char((n % 10) as int))
    }
}

/// One output line: key, tab, value, tab, decimal weight.
pub open spec fn line_of(key: Seq<char>, value: Seq<char>, w: u32) -> Seq<char> {
    key + seq!['\t'] + value + seq!['\t'] + u32_dec(w as nat)
}

/// The lines of one entry, in candidate order.
pub open spec fn render_entry(e: EntryModel) -> Seq<Seq<char>> {
    Seq::new(e.1.len(), |i: int| line_of(e.0, e.1[i].0, e.1[i].1))
}

/// The lines of the whole table, entries in table order.
pub open spec fn render_model(t: TableModel) -> Seq<Seq<char>>
    decreases t.len(),
{
    if t.len() == 0 {
        Seq::empty()
    } else {
        render_entry(t[0]) + render_model(t.skip(1))
    }
}

proof fn lemma_render_model_push(t: TableModel, e: EntryModel)
    ensures
        render_model(t.push(e)) == render_model(t) + render_entry(e),
    decreases t.len(),
{
    if t.len() == 0 {
        assert(t.push(e)[0] == e);
        assert(t.push(e).skip(1) =~= Seq::<EntryModel>::empty());
        assert(render_model(Seq::<EntryModel>::empty()) == Seq::<Seq<char>>::empty());
        assert(render_model(t) == Seq::<Seq<char>>::empty());
        assert(render_entry(e) + Seq::<Seq<char>>::empty() =~= render_entry(e));
        assert(Seq::<Seq<char>>::empty() + render_entry(e) =~= render_entry(e));
    } else {
        assert(t.push(e)[0] == t[0]);
        assert(t.push(e).skip(1) =~= t.skip(1).push(e));
        lemma_render_model_push(t.skip(1), e);
        assert(render_model(t.push(e)) == render_entry(t[0]) + render_model(t.skip(1).push(e)));
        assert(render_model(t) == render_entry(t[0]) + render_model(t.skip(1)));
        assert(render_entry(t[0]) + (render_model(t.skip(1)) + render_entry(e)) =~= (render_entry(
            t[0],
        ) + render_model(t.skip(1))) + render_entry(e));
    }
}

/// The one-character string for the decimal digit `d`.
fn digit_str(d: u32) -> (r: &'static str)
    requires
        d < 10,
    ensures
        r@ =~= seq![digit_char(d as int)],
{
    proof {
        reveal_strlit("0");
        reveal_strlit("1");
        reveal_strlit("2");
        reveal_strlit("3");
        reveal_strlit("4");
        reveal_strlit("5");
        reveal_strlit("6");
        reveal_strlit("7");
        reveal_strlit("8");
        reveal_strlit("9");
    }
    match d {
        0 => "0",
        1 => "1",
        2 => "2",
        3 => "3",
        4 => "4",
        5 => "5",
        6 => "6",
        7 => "7",
        8 => "8",
        _ => "9",
    }
}

/// The decimal representation of a 32-bit weight.
pub fn weight_string(n: u32) -> (r: String)
    ensures
        r@ == u32_dec(n as nat),
    decreases n,
{
    if n < 10 {
        let mut s = String::new();
        s.append(digit_str(n));
        proof {
            assert(s@ =~= u32_dec(n as nat));
        }
        s
    } else {
        let mut s = weight_string(n / 10);
        s.append(digit_str(n % 10));
        proof {
            assert(s@ =~= u32_dec(n as nat));
        }
        s
    }
}

/// Render the table: for each key in table order, one line per candidate in
/// list order, `key<TAB>value<TAB>weight`.
pub fn render_lines(table: &CandidateTable) -> (r: Vec<String>)
    ensures
        r.deep_view() == render_model(table@),
{
    let mut out: Vec<String> = Vec::new();
    let n = table.entries.len();
    let mut i: usize = 0;
    proof {
        assert(table@.take(0) =~= Seq::<EntryModel>::empty());
        assert(out.deep_view() =~= render_model(table@.take(0)));
    }
    while i < n
        invariant
            0 <= i <= n,
            n == table.entries.len(),
            out.deep_view() == render_model(table@.take(i as int)),
        decreases n - i,
    {
        let ghost e = table@[i as int];
        let m = table.entries[i].1.len();
        let mut j: usize = 0;
        proof {
            assert(render_entry(e).take(0) =~= Seq::<Seq<char>>::empty());
            assert(render_model(table@.take(i as int)) + Seq::<Seq<char>>::empty()
                =~= render_model(table@.take(i as int)));
        }
        while j < m
            invariant
                0 <= j <= m,
                0 <= i < n,
                n == table.entries.len(),
                e == table@[i as int],
                m == table.entries[i as int].1.len(),
                out.deep_view() == render_model(table@.take(i as int)) + render_entry(e).take(
                    j as int,
                ),
            decreases m - j,
        {
            let mut line = String::new();
            line.append(table.entries[i].0.as_str());
            line.append("\t");
            line.append(table.entries[i].1[j].0.as_str());
            line.append("\t");
            let ws = weight_string(table.entries[i].1[j].1);
            line.append(ws.as_str());
            proof {
                reveal_strlit("\t");
                assert("\t"@ =~= seq!['\t']);
                assert(e.1[j as int] == (table.entries@[i as int].1@[j as int].0@,
                table.entries@[i as int].1@[j as int].1));
                assert(line@ =~= line_of(e.0, e.1[j as int].0, e.1[j as int].1));
            }
            let ghost old_deep = out.deep_view();
            out.push(line);
            proof {
                assert(out.deep_view() =~~= old_deep.push(line@));
                assert(render_entry(e)[j as int] == line@);
                assert(render_entry(e).take(j + 1) =~= render_entry(e).take(j as int).push(
                    render_entry(e)[j as int],
                ));
                assert(old_deep.push(line@) =~= render_model(table@.take(i as int)) + render_entry(
                    e,
                ).take(j + 1));
            }
            j += 1;
        }
        proof {
            assert(render_entry(e).take(m as int) =~= render_entry(e));
            assert(table@.take(i + 1) =~= table@.take(i as int).push(e));
            lemma_render_model_push(table@.take(i as int), e);
        }
        i += 1;
    }
    proof {
        assert(table@.take(n as int) =~= table@);
    }
    out
}

} // verus!
