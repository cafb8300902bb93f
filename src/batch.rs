use vstd::prelude::*;
use crate::grid::{
    fresh, parse_cells, parse_status, search_ends, solve_outcome, Grid, ReadStatus, SolveStatus,
};

verus! {

/// One accepted puzzle: the position of its line in the input, the outcome of its
/// search (`Unknown` until solved), and its board.
pub struct Entry {
    pub line: usize,
    pub status: SolveStatus,
    pub grid: Grid,
}

/// The positions of the lines that read as complete, well-formed puzzles, in order.
pub open spec fn accepted(lines: Seq<Seq<char>>) -> Seq<int>
    decreases lines.len(),
{
    if lines.len() == 0 {
        Seq::empty()
    } else {
        let rest = accepted(lines.drop_last());
        if parse_status(lines.last()) == ReadStatus::Valid {
            rest.push(lines.len() - 1)
        } else {
            rest
        }
    }
}

pub open spec fn texts(lines: Seq<String>) -> Seq<Seq<char>> {
    Seq::new(lines.len(), |i: int| lines[i]@)
}

/// An entry as `load_batch` makes it for line `pos` of `lines`.
pub open spec fn loaded(e: Entry, lines: Seq<Seq<char>>, pos: int) -> bool {
    &&& e.line == pos
    &&& e.status == SolveStatus::Unknown
    &&& e.grid.wf()
    &&& fresh(e.grid.cells())
    &&& e.grid.cells() == parse_cells(lines[pos])
    &&& e.grid.steps() == 0
}

/// An entry after its search: same line, and an outcome that fits its puzzle.
pub open spec fn solved_from(before: Entry, after: Entry) -> bool {
    &&& after.line == before.line
    &&& after.grid.wf()
    &&& solve_outcome(before.grid.cells(), after.grid.cells(), after.status)
    &&& after.grid.steps() >= before.grid.steps()
    &&& search_ends(
        before.grid.cells(),
        before.grid.steps() as int,
        after.grid.cells(),
        after.grid.steps() as int,
        after.status,
    )
}

proof fn lemma_parsed_fresh(t: Seq<char>)
    ensures
        fresh(parse_cells(t)),
{
}

/// Reads every line, keeping one entry per line that reads without error, in
/// input order. Lines that are short or hold a stray character are left out.
pub fn load_batch(lines: &Vec<String>) -> (r: Vec<Entry>)
    ensures
        r@.len() == accepted(texts(lines@)).len(),
        forall|i: int|
            0 <= i < r@.len() ==> loaded(#[trigger] r@[i], texts(lines@), accepted(texts(lines@))[i]),
{
    let ghost all = texts(lines@);
    let mut out: Vec<Entry> = Vec::new();
    let mut i: usize = 0;
    while i < lines.len()
        invariant
            i <= lines@.len(),
            all == texts(lines@),
            out@.len() == accepted(all.take(i as int)).len(),
            forall|j: int|
                0 <= j < out@.len() ==> loaded(#[trigger] out@[j], all, accepted(all.take(i as int))[j]),
        decreases lines@.len() - i,
    {
        let mut g = Grid::new();
        let st = g.parse_str(lines[i].as_str());
        proof {
            assert(all.take(i as int + 1).drop_last() =~= all.take(i as int));
            assert(all.take(i as int + 1).last() == lines@[i as int]@);
            lemma_parsed_fresh(lines@[i as int]@);
        }
        if st == ReadStatus::Valid {
            out.push(Entry { line: i, status: SolveStatus::Unknown, grid: g });
        }
        i += 1;
    }
    assert(all.take(lines@.len() as int) =~= all);
    out
}

/// Solves the board of one entry and records the outcome.
pub fn solve_entry(e: &mut Entry)
    requires
        old(e).grid.wf(),
        fresh(old(e).grid.cells()),
    ensures
        solved_from(*old(e), *final(e)),
{
    e.status = e.grid.solve();
}

/// Solves every entry, one after another, keeping their order.
pub fn solve_batch(entries: &mut Vec<Entry>)
    requires
        forall|i: int|
            0 <= i < old(entries)@.len() ==> (#[trigger] old(entries)@[i]).grid.wf() && fresh(
                old(entries)@[i].grid.cells(),
            ),
    ensures
        final(entries)@.len() == old(entries)@.len(),
        forall|i: int|
            0 <= i < old(entries)@.len() ==> solved_from(
                #[trigger] old(entries)@[i],
                final(entries)@[i],
            ),
{
    let ghost before = entries@;
    let mut i: usize = 0;
    while i < entries.len()
        invariant
            i <= entries@.len(),
            entries@.len() == before.len(),
            before == old(entries)@,
            forall|j: int| 0 <= j < i ==> solved_from(#[trigger] before[j], entries@[j]),
            forall|j: int| i <= j < before.len() ==> #[trigger] entries@[j] == before[j],
            forall|j: int|
                0 <= j < before.len() ==> (#[trigger] before[j]).grid.wf() && fresh(
                    before[j].grid.cells(),
                ),
        decreases before.len() - i,
    {
        solve_entry(&mut entries[i]);
        i += 1;
    }
}

} // verus!
