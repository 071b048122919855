//! Builds a predictive-text candidate table from weighted textual records.
//!
//! Each input line holds a compound key and a weight separated by a tab. A
//! line is decomposed into one or more (key, value, weight) candidate
//! observations, which are merged into a table under a max-weight-wins rule.
//! After all input is merged, each key's candidate list is sorted by weight
//! descending, optionally capped, and rendered as tab-separated output lines.

use vstd::prelude::*;

pub mod laws;
pub mod rank;
pub mod record;
pub mod render;
pub mod table;

verus! {

use crate::rank::finalize_model;
use crate::record::{line_outcome, PredictError};
use crate::render::render_model;
use crate::table::{CandidateTable, TableModel};

/// A fresh, empty candidate table.
pub fn new_table() -> (t: CandidateTable)
    ensures
        t@ =~= Seq::<(Seq<char>, Seq<(Seq<char>, u32)>)>::empty(),
        crate::table::table_wf(t@),
{
    CandidateTable { entries: Vec::new() }
}

/// The table after consuming `lines` in order, starting from `t`: the first
/// malformed line aborts the run with its error.
pub open spec fn run_lines(t: TableModel, lines: Seq<Seq<char>>, filter: Option<u32>) -> Result<
    TableModel,
    PredictError,
>
    decreases lines.len(),
{
    if lines.len() == 0 {
        Ok(t)
    } else {
        match line_outcome(t, lines[0], filter) {
            Err(e) => Err(e),
            Ok(t2) => run_lines(t2, lines.skip(1), filter),
        }
    }
}

/// The whole pipeline: merge every line, rank and cap every list, render.
pub open spec fn aggregate_model(
    lines: Seq<Seq<char>>,
    filter: Option<u32>,
    max_candidates: Option<usize>,
) -> Result<Seq<Seq<char>>, PredictError> {
    match run_lines(Seq::empty(), lines, filter) {
        Err(e) => Err(e),
        Ok(t) => Ok(render_model(finalize_model(t, max_candidates))),
    }
}

/// Run the whole pipeline over an ordered sequence of raw input lines and
/// return the output lines, or the error that aborted the run.
pub fn aggregate(
    lines: &Vec<String>,
    filter_weight: Option<u32>,
    max_candidates: Option<usize>,
) -> (r: Result<Vec<String>, PredictError>)
    ensures
        ({
            let out = aggregate_model(lines.deep_view(), filter_weight, max_candidates);
            match out {
                Ok(rendered) => r is Ok && r->Ok_0.deep_view() == rendered,
                Err(e) => r == Err::<Vec<String>, PredictError>(e),
            }
        }),
{
    let ghost all = lines.deep_view();
    let mut table = new_table();
    let n = lines.len();
    let mut i: usize = 0;
    proof {
        assert(all.skip(0) =~= all);
    }
    while i < n
        invariant
            0 <= i <= n,
            n == lines.len(),
            all == lines.deep_view(),
            run_lines(Seq::empty(), all, filter_weight) == run_lines(
                table@,
                all.skip(i as int),
                filter_weight,
            ),
        decreases n - i,
    {
        let line = &lines[i];
        let ghost pre = table@;
        let res = crate::record::process_line(&mut table, line.as_str(), filter_weight);
        proof {
            assert(all.skip(i as int)[0] == all[i as int]);
            assert(line@ == all[i as int]);
            assert(all.skip(i as int).skip(1) =~= all.skip(i + 1));
        }
        if let Err(e) = res {
            return Err(e);
        }
        i += 1;
    }
    proof {
        assert(all.skip(n as int) =~= Seq::<Seq<char>>::empty());
    }
    crate::rank::finalize(&mut table, max_candidates);
    let out = crate::render::render_lines(&table);
    Ok(out)
}

} // verus!
