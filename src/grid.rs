use vstd::prelude::*;

verus! {

/// One square of the board.
#[derive(Clone, Copy, PartialEq, Eq, Structural, Debug)]
pub enum State {
    /// A clue from the puzzle text; never changed by the search.
    Given(u8),
    /// A digit placed by the search.
    Guess(u8),
    Blank,
}

/// Outcome of reading one line of puzzle text.
#[derive(Clone, Copy, PartialEq, Eq, Structural, Debug)]
pub enum ReadStatus {
    Valid,
    TooShort,
    InvalidChr,
}

/// Outcome of a search.
#[derive(Clone, Copy, PartialEq, Eq, Structural, Debug)]
pub enum SolveStatus {
    Unknown,
    Solved,
    Failed,
}

/// Direction in which the search pointer last moved.
#[derive(Clone, Copy, PartialEq, Eq, Structural, Debug)]
pub enum Action {
    Advance,
    Backtrace,
}

/// A board of 81 cells, row-major, with one digit bit-set per row, column and box.
pub struct Grid {
    grid: Vec<State>,
    count: u32,
    rowcheck: [u16; 9],
    colcheck: [u16; 9],
    sqcheck: [u16; 9],
}

pub open spec fn row_of(q: int) -> int {
    q / 9
}

pub open spec fn col_of(q: int) -> int {
    q % 9
}

pub open spec fn box_of(q: int) -> int {
    row_of(q) - row_of(q) % 3 + col_of(q) / 3
}

/// The row (kind 0), column (kind 1) or box (kind 2) holding position `q`.
pub open spec fn unit_of(kind: int, q: int) -> int {
    if kind == 0 {
        row_of(q)
    } else if kind == 1 {
        col_of(q)
    } else {
        box_of(q)
    }
}

pub open spec fn same_unit(p: int, q: int) -> bool {
    row_of(p) == row_of(q) || col_of(p) == col_of(q) || box_of(p) == box_of(q)
}

/// The digit a cell holds, 0 for a blank.
pub open spec fn value(s: State) -> int {
    match s {
        State::Given(v) => v as int,
        State::Guess(v) => v as int,
        State::Blank => 0,
    }
}

pub open spec fn valid_cell(s: State) -> bool {
    match s {
        State::Given(v) => 1 <= v <= 9,
        State::Guess(v) => 1 <= v <= 9,
        State::Blank => true,
    }
}

/// The digits of a board, 0 for blanks.
pub open spec fn values(cells: Seq<State>) -> Seq<int> {
    Seq::new(cells.len(), |q: int| value(cells[q]))
}

/// No digit occurs twice in any row, column or box.
pub open spec fn no_conflict(cells: Seq<State>) -> bool {
    forall|p: int, q: int|
        0 <= p < cells.len() && 0 <= q < cells.len() && p != q && same_unit(p, q) && value(
            cells[p],
        ) != 0 ==> #[trigger] value(cells[p]) != #[trigger] value(cells[q])
}

/// A complete assignment of digits that keeps every clue of `puzzle` and repeats
/// no digit in a row, column or box.
pub open spec fn is_solution(sol: Seq<int>, puzzle: Seq<State>) -> bool {
    &&& sol.len() == 81
    &&& puzzle.len() == 81
    &&& forall|q: int| 0 <= q < 81 ==> 1 <= #[trigger] sol[q] <= 9
    &&& forall|q: int| 0 <= q < 81 && (#[trigger] puzzle[q] is Given) ==> sol[q] == value(puzzle[q])
    &&& forall|p: int, q: int|
        0 <= p < 81 && 0 <= q < 81 && p != q && same_unit(p, q) ==> #[trigger] sol[p]
            != #[trigger] sol[q]
}

/// `sol` and the board agree on the first `n` positions.
pub open spec fn agree(sol: Seq<int>, cells: Seq<State>, n: int) -> bool {
    forall|q: int| 0 <= q < n ==> #[trigger] sol[q] == value(cells[q])
}

/// `sol` comes strictly before the board in the first `n` positions, in
/// lexicographic order of digits.
pub open spec fn lex_below(sol: Seq<int>, cells: Seq<State>, n: int) -> bool {
    exists|j: int| 0 <= j < n && agree(sol, cells, j) && #[trigger] sol[j] < value(cells[j])
}

/// Every clue of `before` stands unchanged in `after`, and `after` has no other clue.
pub open spec fn keeps_givens(before: Seq<State>, after: Seq<State>) -> bool {
    &&& before.len() == after.len()
    &&& forall|q: int|
        0 <= q < before.len() && (before[q] is Given || after[q] is Given) ==> #[trigger] after[q]
            == before[q]
}

/// How many of the cells in `cells` lie in unit `u` of `kind` and hold digit `d`.
pub open spec fn tally(cells: Seq<State>, kind: int, u: int, d: int) -> nat
    decreases cells.len(),
{
    if cells.len() == 0 {
        0
    } else {
        tally(cells.drop_last(), kind, u, d) + if unit_of(kind, cells.len() - 1) == u && value(
            cells.last(),
        ) == d {
            1nat
        } else {
            0nat
        }
    }
}

pub open spec fn bit(m: u16, d: u16) -> bool {
    m & (1u16 << d) != 0
}

/// Bit `d` of the mask of unit `u` is set exactly when digit `d` occurs an odd
/// number of times in that unit.
pub open spec fn mask_matches(cells: Seq<State>, masks: Seq<u16>, kind: int) -> bool {
    &&& masks.len() == 9
    &&& forall|u: int, d: u16|
        0 <= u < 9 && d < 16 ==> #[trigger] bit(masks[u], d) == (1 <= d <= 9 && tally(
            cells,
            kind,
            u,
            d as int,
        ) % 2 == 1)
}

pub open spec fn flipped(masks: Seq<u16>, u: int, n: u16) -> Seq<u16> {
    masks.update(u, masks[u] ^ (1u16 << n))
}

/// The cell a character of puzzle text stands for.
pub open spec fn cell_of_char(c: char) -> State {
    if c == '_' || c == '.' || c == '0' {
        State::Blank
    } else if '1' <= c <= '9' {
        State::Given((c as u32 - 48) as u8)
    } else {
        State::Blank
    }
}

pub open spec fn char_ok(c: char) -> bool {
    c == '_' || c == '.' || ('0' <= c <= '9')
}

/// The 81 cells read from `t`; positions past its end are blank.
pub open spec fn parse_cells(t: Seq<char>) -> Seq<State> {
    Seq::new(81, |q: int| if q < t.len() { cell_of_char(t[q]) } else { State::Blank })
}

pub open spec fn parse_status(t: Seq<char>) -> ReadStatus {
    if t.len() < 81 {
        ReadStatus::TooShort
    } else if exists|q: int| 0 <= q < 81 && !char_ok(#[trigger] t[q]) {
        ReadStatus::InvalidChr
    } else {
        ReadStatus::Valid
    }
}

proof fn lemma_bit_flip(m: u16, n: u16, d: u16)
    requires
        n < 16,
        d < 16,
    ensures
        bit(m ^ (1u16 << n), d) == (bit(m, d) != (d == n)),
{
    assert((m ^ (1u16 << n)) & (1u16 << d) != 0 <==> ((m & (1u16 << d) != 0) != (d == n)))
        by (bit_vector)
        requires
            n < 16,
            d < 16,
    ;
}

/// Two masks with the same sixteen bits are equal.
proof fn lemma_mask_ext(a: u16, b: u16)
    requires
        forall|d: u16| d < 16 ==> #[trigger] bit(a, d) == bit(b, d),
    ensures
        a == b,
{
    assert(bit(a, 0u16) == bit(b, 0u16));
    assert(bit(a, 1u16) == bit(b, 1u16));
    assert(bit(a, 2u16) == bit(b, 2u16));
    assert(bit(a, 3u16) == bit(b, 3u16));
    assert(bit(a, 4u16) == bit(b, 4u16));
    assert(bit(a, 5u16) == bit(b, 5u16));
    assert(bit(a, 6u16) == bit(b, 6u16));
    assert(bit(a, 7u16) == bit(b, 7u16));
    assert(bit(a, 8u16) == bit(b, 8u16));
    assert(bit(a, 9u16) == bit(b, 9u16));
    assert(bit(a, 10u16) == bit(b, 10u16));
    assert(bit(a, 11u16) == bit(b, 11u16));
    assert(bit(a, 12u16) == bit(b, 12u16));
    assert(bit(a, 13u16) == bit(b, 13u16));
    assert(bit(a, 14u16) == bit(b, 14u16));
    assert(bit(a, 15u16) == bit(b, 15u16));
    assert(a == b) by (bit_vector)
        requires
            (a & (1u16 << 0u16) != 0) == (b & (1u16 << 0u16) != 0),
            (a & (1u16 << 1u16) != 0) == (b & (1u16 << 1u16) != 0),
            (a & (1u16 << 2u16) != 0) == (b & (1u16 << 2u16) != 0),
            (a & (1u16 << 3u16) != 0) == (b & (1u16 << 3u16) != 0),
            (a & (1u16 << 4u16) != 0) == (b & (1u16 << 4u16) != 0),
            (a & (1u16 << 5u16) != 0) == (b & (1u16 << 5u16) != 0),
            (a & (1u16 << 6u16) != 0) == (b & (1u16 << 6u16) != 0),
            (a & (1u16 << 7u16) != 0) == (b & (1u16 << 7u16) != 0),
            (a & (1u16 << 8u16) != 0) == (b & (1u16 << 8u16) != 0),
            (a & (1u16 << 9u16) != 0) == (b & (1u16 << 9u16) != 0),
            (a & (1u16 << 10u16) != 0) == (b & (1u16 << 10u16) != 0),
            (a & (1u16 << 11u16) != 0) == (b & (1u16 << 11u16) != 0),
            (a & (1u16 << 12u16) != 0) == (b & (1u16 << 12u16) != 0),
            (a & (1u16 << 13u16) != 0) == (b & (1u16 << 13u16) != 0),
            (a & (1u16 << 14u16) != 0) == (b & (1u16 << 14u16) != 0),
            (a & (1u16 << 15u16) != 0) == (b & (1u16 << 15u16) != 0),
    ;
}

proof fn lemma_zero_bits(d: u16)
    requires
        d < 16,
    ensures
        !bit(0u16, d),
{
    assert(0u16 & (1u16 << d) == 0) by (bit_vector);
}

proof fn lemma_tally_update(cells: Seq<State>, p: int, x: State, kind: int, u: int, d: int)
    requires
        0 <= p < cells.len(),
    ensures
        tally(cells.update(p, x), kind, u, d) + (if unit_of(kind, p) == u && value(cells[p]) == d {
            1int
        } else {
            0int
        }) == tally(cells, kind, u, d) + (if unit_of(kind, p) == u && value(x) == d {
            1int
        } else {
            0int
        }),
    decreases cells.len(),
{
    let c2 = cells.update(p, x);
    if p == cells.len() - 1 {
        assert(c2.drop_last() =~= cells.drop_last());
    } else {
        assert(c2.drop_last() =~= cells.drop_last().update(p, x));
        lemma_tally_update(cells.drop_last(), p, x, kind, u, d);
    }
}

proof fn lemma_tally_push(cells: Seq<State>, x: State, kind: int, u: int, d: int)
    ensures
        tally(cells.push(x), kind, u, d) == tally(cells, kind, u, d) + (if unit_of(
            kind,
            cells.len() as int,
        ) == u && value(x) == d {
            1int
        } else {
            0int
        }),
{
    assert(cells.push(x).drop_last() =~= cells);
}

proof fn lemma_tally_witness(cells: Seq<State>, kind: int, u: int, d: int)
    requires
        tally(cells, kind, u, d) > 0,
    ensures
        exists|q: int| 0 <= q < cells.len() && unit_of(kind, q) == u && value(#[trigger] cells[q]) == d,
    decreases cells.len(),
{
    let q = cells.len() - 1;
    if !(unit_of(kind, q) == u && value(cells[q]) == d) {
        lemma_tally_witness(cells.drop_last(), kind, u, d);
        let w = choose|w: int|
            0 <= w < cells.drop_last().len() && unit_of(kind, w) == u && value(
                #[trigger] cells.drop_last()[w],
            ) == d;
        assert(cells[w] == cells.drop_last()[w]);
    }
}

proof fn lemma_tally_at_most_one(cells: Seq<State>, kind: int, u: int, d: int)
    requires
        no_conflict(cells),
        d != 0,
        0 <= kind < 3,
    ensures
        tally(cells, kind, u, d) <= 1,
    decreases cells.len(),
{
    if cells.len() > 0 {
        let pre = cells.drop_last();
        assert(no_conflict(pre)) by {
            assert forall|p: int, q: int|
                0 <= p < pre.len() && 0 <= q < pre.len() && p != q && same_unit(p, q) && value(
                    pre[p],
                ) != 0 implies #[trigger] value(pre[p]) != #[trigger] value(pre[q]) by {
                assert(pre[p] == cells[p] && pre[q] == cells[q]);
            }
        }
        lemma_tally_at_most_one(pre, kind, u, d);
        let last = cells.len() - 1;
        if unit_of(kind, last) == u && value(cells[last]) == d && tally(pre, kind, u, d) > 0 {
            lemma_tally_witness(pre, kind, u, d);
            let w = choose|w: int|
                0 <= w < pre.len() && unit_of(kind, w) == u && value(#[trigger] pre[w]) == d;
            assert(pre[w] == cells[w]);
            assert(same_unit(w, last));
            assert(value(cells[w]) != value(cells[last]));
        }
    }
}

/// Changing the cell at `p` between blank and digit `n` flips bit `n` of the
/// mask of its unit and no other.
proof fn lemma_flip(cells: Seq<State>, masks: Seq<u16>, kind: int, p: int, x: State, n: u16)
    requires
        0 <= p < cells.len(),
        0 <= kind < 3,
        1 <= n <= 9,
        0 <= unit_of(kind, p) < 9,
        mask_matches(cells, masks, kind),
        (value(cells[p]) == 0 && value(x) == n) || (value(cells[p]) == n && value(x) == 0),
    ensures
        mask_matches(cells.update(p, x), flipped(masks, unit_of(kind, p), n), kind),
{
    let m2 = flipped(masks, unit_of(kind, p), n);
    assert forall|u: int, d: u16| 0 <= u < 9 && d < 16 implies #[trigger] bit(m2[u], d) == (1
        <= d <= 9 && tally(cells.update(p, x), kind, u, d as int) % 2 == 1) by {
        lemma_tally_update(cells, p, x, kind, u, d as int);
        assert(bit(masks[u], d) == (1 <= d <= 9 && tally(cells, kind, u, d as int) % 2 == 1));
        if u == unit_of(kind, p) {
            lemma_bit_flip(masks[u], n, d);
        }
    }
}


/// 11 to the power `e`.
pub open spec fn place(e: int) -> int
    decreases e,
{
    if e <= 0 {
        1
    } else {
        11 * place(e - 1)
    }
}

/// The digit the search has placed in a cell, 0 for clues and blanks.
pub open spec fn key(s: State) -> int {
    match s {
        State::Guess(v) => v as int,
        _ => 0,
    }
}

/// The search's placements on the first `n` positions, read as a number in base 11.
pub open spec fn prefix_code(cells: Seq<State>, n: int) -> int
    decreases n,
{
    if n <= 0 {
        0
    } else {
        prefix_code(cells, n - 1) + key(cells[n - 1]) * place(82 - n)
    }
}

/// How far the search has gone through the assignments, in lexicographic order.
pub open spec fn progress(cells: Seq<State>, idx: int, action: Action) -> int {
    if action == Action::Advance {
        prefix_code(cells, idx - 1)
    } else {
        prefix_code(cells, idx) + place(82 - idx) - 1
    }
}

proof fn lemma_place_grows(e: int)
    requires
        0 <= e,
    ensures
        place(e) >= 1,
        place(e + 1) == 11 * place(e),
    decreases e,
{
    if e > 0 {
        lemma_place_grows(e - 1);
    }
}

proof fn lemma_prefix_frame(a: Seq<State>, b: Seq<State>, n: int)
    requires
        0 <= n <= a.len(),
        n <= b.len(),
        forall|q: int| 0 <= q < n ==> a[q] == b[q],
    ensures
        prefix_code(a, n) == prefix_code(b, n),
    decreases n,
{
    if n > 0 {
        lemma_prefix_frame(a, b, n - 1);
    }
}

proof fn lemma_prefix_bound(cells: Seq<State>, n: int)
    requires
        0 <= n <= 81,
        n <= cells.len(),
        forall|q: int| 0 <= q < n ==> valid_cell(#[trigger] cells[q]),
    ensures
        0 <= prefix_code(cells, n),
        prefix_code(cells, n) + place(82 - n) <= place(82),
    decreases n,
{
    if n > 0 {
        lemma_prefix_bound(cells, n - 1);
        lemma_place_grows(82 - n);
        let k = key(cells[n - 1]);
        let w = place(82 - n);
        assert(valid_cell(cells[n - 1]));
        assert(0 <= k <= 9);
        assert(0 <= k * w <= 9 * w) by (nonlinear_arith)
            requires
                0 <= k <= 9,
                w >= 1,
        ;
    }
}

/// A digit whose bit is set in a mask of position `p` occurs in a unit of `p`, so
/// no solution that agrees with the board elsewhere can hold it at `p`.
proof fn lemma_blocked(
    cells: Seq<State>,
    start: Seq<State>,
    sol: Seq<int>,
    p: int,
    kind: int,
    k: int,
)
    requires
        cells.len() == 81,
        0 <= p < 81,
        0 <= kind < 3,
        1 <= k <= 9,
        tally(cells, kind, unit_of(kind, p), k) % 2 == 1,
        value(cells[p]) == 0,
        forall|q: int| p < q < 81 ==> !(#[trigger] cells[q] is Guess),
        keeps_givens(start, cells),
        is_solution(sol, start),
    ensures
        !(agree(sol, cells, p) && sol[p] == k),
{
    if agree(sol, cells, p) && sol[p] == k {
    lemma_tally_witness(cells, kind, unit_of(kind, p), k);
    let q = choose|q: int|
        0 <= q < cells.len() && unit_of(kind, q) == unit_of(kind, p) && value(#[trigger] cells[q])
            == k;
    assert(same_unit(p, q));
    if q < p {
        assert(sol[q] == value(cells[q]));
    } else {
        assert(cells[q] is Given);
        assert(start[q] == cells[q]);
        assert(sol[q] == value(start[q]));
    }
    assert(sol[p] != sol[q]);
    }
}

proof fn lemma_agree_step(sol: Seq<int>, cells: Seq<State>, n: int)
    requires
        0 <= n,
    ensures
        agree(sol, cells, n + 1) == (agree(sol, cells, n) && sol[n] == value(cells[n])),
{
}

proof fn lemma_lex_step(sol: Seq<int>, cells: Seq<State>, n: int)
    requires
        0 <= n,
    ensures
        lex_below(sol, cells, n + 1) == (lex_below(sol, cells, n) || (agree(sol, cells, n)
            && sol[n] < value(cells[n]))),
{
    if lex_below(sol, cells, n + 1) && !lex_below(sol, cells, n) {
        let j = choose|j: int|
            0 <= j < n + 1 && agree(sol, cells, j) && #[trigger] sol[j] < value(cells[j]);
        assert(j == n);
    }
    if agree(sol, cells, n) && sol[n] < value(cells[n]) {
        assert(sol[n] < value(cells[n]));
    }
}

/// Neither `agree` nor `lex_below` up to `n` looks at positions from `n` on.
proof fn lemma_prefix_only(sol: Seq<int>, cells: Seq<State>, p: int, x: State, n: int)
    requires
        0 <= n <= p < cells.len(),
    ensures
        agree(sol, cells.update(p, x), n) == agree(sol, cells, n),
        lex_below(sol, cells.update(p, x), n) == lex_below(sol, cells, n),
{
    let c2 = cells.update(p, x);
    assert forall|q: int| 0 <= q < n implies #[trigger] c2[q] == cells[q] by {}
    if lex_below(sol, c2, n) {
        let j = choose|j: int| 0 <= j < n && agree(sol, c2, j) && #[trigger] sol[j] < value(c2[j]);
        assert(agree(sol, cells, j) && sol[j] < value(cells[j]));
    }
    if lex_below(sol, cells, n) {
        let j = choose|j: int|
            0 <= j < n && agree(sol, cells, j) && #[trigger] sol[j] < value(cells[j]);
        assert(agree(sol, c2, j) && sol[j] < value(c2[j]));
    }
}

proof fn lemma_tally_zero(cells: Seq<State>, kind: int, u: int, d: int, q: int)
    requires
        tally(cells, kind, u, d) == 0,
        0 <= q < cells.len(),
    ensures
        !(unit_of(kind, q) == u && value(cells[q]) == d),
    decreases cells.len(),
{
    if q < cells.len() - 1 {
        lemma_tally_zero(cells.drop_last(), kind, u, d, q);
        assert(cells.drop_last()[q] == cells[q]);
    }
}

/// Placing a digit whose mask bits are all clear keeps a board free of conflicts.
proof fn lemma_place_ok(cells: Seq<State>, p: int, k: u8)
    requires
        no_conflict(cells),
        0 <= p < cells.len(),
        value(cells[p]) == 0,
        1 <= k <= 9,
        forall|kind: int|
            0 <= kind < 3 ==> #[trigger] tally(cells, kind, unit_of(kind, p), k as int) % 2 == 0,
    ensures
        no_conflict(cells.update(p, State::Guess(k))),
{
    let c2 = cells.update(p, State::Guess(k));
    assert forall|kind: int| 0 <= kind < 3 implies #[trigger] tally(cells, kind, unit_of(kind, p), k as int) == 0 by {
        lemma_tally_at_most_one(cells, kind, unit_of(kind, p), k as int);
        assert(tally(cells, kind, unit_of(kind, p), k as int) % 2 == 0);
    }
    assert forall|a: int, b: int|
        0 <= a < c2.len() && 0 <= b < c2.len() && a != b && same_unit(a, b) && value(c2[a]) != 0
        implies #[trigger] value(c2[a]) != #[trigger] value(c2[b]) by {
        if a == p {
            let kind = if row_of(a) == row_of(b) { 0int } else if col_of(a) == col_of(b) { 1int } else { 2int };
            assert(tally(cells, kind, unit_of(kind, p), k as int) == 0);
            lemma_tally_zero(cells, kind, unit_of(kind, p), k as int, b);
        } else if b == p {
            let kind = if row_of(a) == row_of(b) { 0int } else if col_of(a) == col_of(b) { 1int } else { 2int };
            assert(tally(cells, kind, unit_of(kind, p), k as int) == 0);
            lemma_tally_zero(cells, kind, unit_of(kind, p), k as int, a);
        } else {
            assert(value(cells[a]) != value(cells[b]));
        }
    }
}

proof fn lemma_blank_ok(cells: Seq<State>, p: int)
    requires
        no_conflict(cells),
        0 <= p < cells.len(),
    ensures
        no_conflict(cells.update(p, State::Blank)),
{
    let c2 = cells.update(p, State::Blank);
    assert forall|a: int, b: int|
        0 <= a < c2.len() && 0 <= b < c2.len() && a != b && same_unit(a, b) && value(c2[a]) != 0
        implies #[trigger] value(c2[a]) != #[trigger] value(c2[b]) by {
        assert(value(cells[a]) != value(cells[b]));
    }
}

/// Digits in `lo..hi` that are all marked in a mask of `p` cannot stand at `p` in
/// any solution that agrees with the board before `p`.
proof fn lemma_scan(
    cells: Seq<State>,
    rows: Seq<u16>,
    cols: Seq<u16>,
    boxes: Seq<u16>,
    start: Seq<State>,
    p: int,
    lo: int,
    hi: int,
)
    requires
        cells.len() == 81,
        0 <= p < 81,
        1 <= lo,
        hi <= 10,
        mask_matches(cells, rows, 0),
        mask_matches(cells, cols, 1),
        mask_matches(cells, boxes, 2),
        value(cells[p]) == 0,
        forall|q: int| p < q < 81 ==> !(#[trigger] cells[q] is Guess),
        keeps_givens(start, cells),
        forall|j: u16|
            lo <= j < hi ==> (#[trigger] bit(rows[row_of(p)], j) || bit(cols[col_of(p)], j) || bit(
                boxes[box_of(p)],
                j,
            )),
    ensures
        forall|sol: Seq<int>|
            is_solution(sol, start) && agree(sol, cells, p) ==> !(lo <= #[trigger] sol[p] < hi),
{
    assert forall|sol: Seq<int>|
        is_solution(sol, start) && agree(sol, cells, p) implies !(lo <= #[trigger] sol[p] < hi) by {
        if lo <= sol[p] < hi {
            let j = sol[p] as u16;
            assert(bit(rows[row_of(p)], j) || bit(cols[col_of(p)], j) || bit(boxes[box_of(p)], j));
            Grid::lemma_units(p);
            if bit(rows[row_of(p)], j) {
                lemma_blocked(cells, start, sol, p, 0, j as int);
            } else if bit(cols[col_of(p)], j) {
                lemma_blocked(cells, start, sol, p, 1, j as int);
            } else {
                lemma_blocked(cells, start, sol, p, 2, j as int);
            }
        }
    }
}

/// A board as read from text: clues and blanks only.
pub open spec fn fresh(cells: Seq<State>) -> bool {
    forall|q: int| 0 <= q < cells.len() ==> !(#[trigger] cells[q] is Guess)
}

/// Every cell holds a clue.
pub open spec fn all_given(cells: Seq<State>) -> bool {
    forall|q: int| 0 <= q < cells.len() ==> #[trigger] cells[q] is Given
}

/// What a finished search guarantees about the board before and after it.
pub open spec fn solve_outcome(before: Seq<State>, after: Seq<State>, r: SolveStatus) -> bool {
    &&& keeps_givens(before, after)
    &&& (r == SolveStatus::Solved || r == SolveStatus::Failed)
    &&& r == SolveStatus::Failed ==> !exists|sol: Seq<int>| is_solution(sol, before)
    &&& r == SolveStatus::Solved ==> (forall|q: int| 0 <= q < 81 ==> !(#[trigger] after[q] is Blank))
    &&& r == SolveStatus::Solved && no_conflict(before) ==> is_solution(values(after), before)
    &&& r == SolveStatus::Solved ==> forall|sol: Seq<int>|
        is_solution(sol, before) ==> !lex_below(sol, after, 81)
    &&& all_given(before) ==> r == SolveStatus::Solved && after == before
}

/// The character that shows a cell: its digit, or `.` for a blank.
pub open spec fn symbol(s: State) -> char {
    let v = value(s);
    if v == 1 {
        '1'
    } else if v == 2 {
        '2'
    } else if v == 3 {
        '3'
    } else if v == 4 {
        '4'
    } else if v == 5 {
        '5'
    } else if v == 6 {
        '6'
    } else if v == 7 {
        '7'
    } else if v == 8 {
        '8'
    } else if v == 9 {
        '9'
    } else {
        '.'
    }
}

/// The board as one line of 81 symbols, the form that `parse` reads.
pub open spec fn line_text(cells: Seq<State>) -> Seq<char> {
    Seq::new(cells.len(), |q: int| symbol(cells[q]))
}

/// The board as 9 lines, each of 9 symbols followed by a space.
pub open spec fn rows_text(cells: Seq<State>) -> Seq<char> {
    Seq::new(
        171,
        |i: int|
            if i % 19 == 18 {
                '\n'
            } else if i % 19 % 2 == 1 {
                ' '
            } else {
                symbol(cells[(i / 19) * 9 + (i % 19) / 2])
            },
    )
}

/// The board as one line: each of the 81 symbols followed by a space, then a newline.
pub open spec fn spaced_line_text(cells: Seq<State>) -> Seq<char> {
    Seq::new(
        163,
        |i: int|
            if i == 162 {
                '\n'
            } else if i % 2 == 1 {
                ' '
            } else {
                symbol(cells[i / 2])
            },
    )
}

/// A cell as it reads back from text: placed digits become clues.
pub open spec fn as_given(s: State) -> State {
    match s {
        State::Guess(v) => State::Given(v),
        _ => s,
    }
}

/// Writing a board as one line and reading that line back gives the same
/// digits and blanks, with every digit now a clue.
pub proof fn lemma_round_trip(cells: Seq<State>)
    requires
        cells.len() == 81,
        forall|q: int| 0 <= q < 81 ==> valid_cell(#[trigger] cells[q]),
    ensures
        parse_cells(line_text(cells)) == Seq::new(81, |q: int| as_given(cells[q])),
        parse_status(line_text(cells)) == ReadStatus::Valid,
{
    let t = line_text(cells);
    assert forall|q: int| 0 <= q < 81 implies cell_of_char(#[trigger] t[q]) == as_given(cells[q])
        && char_ok(t[q]) by {
        assert(valid_cell(cells[q]));
    }
    assert(parse_cells(t) =~= Seq::new(81, |q: int| as_given(cells[q])));
}

/// After a search that reports `Solved` on clues that do not clash, every cell
/// holds a digit from 1 to 9, no row, column or box repeats a digit, and every
/// clue still stands where it was.
pub proof fn lemma_solved_board(before: Seq<State>, after: Seq<State>, r: SolveStatus)
    requires
        solve_outcome(before, after, r),
        r == SolveStatus::Solved,
        no_conflict(before),
    ensures
        forall|q: int| 0 <= q < 81 ==> 1 <= #[trigger] value(after[q]) <= 9,
        forall|p: int, q: int|
            0 <= p < 81 && 0 <= q < 81 && p != q && same_unit(p, q) ==> #[trigger] value(after[p])
                != #[trigger] value(after[q]),
        forall|q: int| 0 <= q < 81 && (#[trigger] before[q] is Given) ==> after[q] == before[q],
{
    let v = values(after);
    assert forall|q: int| 0 <= q < 81 implies 1 <= #[trigger] value(after[q]) <= 9 by {
        assert(v[q] == value(after[q]));
    }
    assert forall|p: int, q: int|
        0 <= p < 81 && 0 <= q < 81 && p != q && same_unit(p, q) implies #[trigger] value(after[p])
            != #[trigger] value(after[q]) by {
        assert(v[p] == value(after[p]) && v[q] == value(after[q]));
    }
}

/// Digit `k` is allowed at `p`: it occurs an even number of times in each unit of
/// `p`, which is what the masks record.
pub open spec fn free(cells: Seq<State>, p: int, k: int) -> bool {
    &&& tally(cells, 0, row_of(p), k) % 2 == 0
    &&& tally(cells, 1, col_of(p), k) % 2 == 0
    &&& tally(cells, 2, box_of(p), k) % 2 == 0
}

/// The least digit from `k` on that is allowed at `p`, or 10 when none is.
pub open spec fn first_free(cells: Seq<State>, p: int, k: int) -> int
    decreases 10 - k,
{
    if k >= 10 {
        10
    } else if free(cells, p, k) {
        k
    } else {
        first_free(cells, p, k + 1)
    }
}

/// The step counter after one more retreat; it stops at the largest `u32`.
pub open spec fn bump(steps: int) -> int {
    if steps < u32::MAX {
        steps + 1
    } else {
        steps
    }
}

/// One move of the search on (cells, pointer, direction, steps). The pointer is
/// one more than the position it looks at; at 0 or 82 the search has ended.
pub open spec fn search_step(s: (Seq<State>, int, Action, int)) -> (Seq<State>, int, Action, int) {
    let cells = s.0;
    let idx = s.1;
    let p = idx - 1;
    if idx <= 0 || idx >= 82 {
        s
    } else {
        match cells[p] {
            State::Blank => {
                let k = first_free(cells, p, 1);
                if k < 10 {
                    (cells.update(p, State::Guess(k as u8)), idx + 1, Action::Advance, s.3)
                } else {
                    (cells, idx - 1, Action::Backtrace, bump(s.3))
                }
            },
            State::Given(_) => {
                if s.2 == Action::Advance {
                    (cells, idx + 1, s.2, s.3)
                } else {
                    (cells, idx - 1, s.2, s.3)
                }
            },
            State::Guess(c) => {
                let b = cells.update(p, State::Blank);
                let k = first_free(b, p, c + 1);
                if k < 10 {
                    (b.update(p, State::Guess(k as u8)), idx + 1, Action::Advance, s.3)
                } else {
                    (b, idx - 1, Action::Backtrace, bump(s.3))
                }
            },
        }
    }
}

/// `n` moves of the search.
pub open spec fn iterate(s: (Seq<State>, int, Action, int), n: nat) -> (
    Seq<State>,
    int,
    Action,
    int,
)
    decreases n,
{
    if n == 0 {
        s
    } else {
        iterate(search_step(s), (n - 1) as nat)
    }
}

/// Started on `cells` with `steps` counted, the search ends with board `after`,
/// `after_steps` counted and outcome `r`.
pub open spec fn search_ends(
    cells: Seq<State>,
    steps: int,
    after: Seq<State>,
    after_steps: int,
    r: SolveStatus,
) -> bool {
    exists|n: nat|
        #[trigger] iterate((cells, 1, Action::Advance, steps), n) == (
            after,
            if r == SolveStatus::Solved {
                82int
            } else {
                0int
            },
            if r == SolveStatus::Solved {
                Action::Advance
            } else {
                Action::Backtrace
            },
            after_steps,
        )
}

proof fn lemma_iterate_last(s: (Seq<State>, int, Action, int), n: nat)
    ensures
        iterate(s, n + 1) == search_step(iterate(s, n)),
    decreases n,
{
    if n > 0 {
        lemma_iterate_last(search_step(s), (n - 1) as nat);
        assert(iterate(s, n + 1) == iterate(search_step(s), n));
        assert(iterate(s, n) == iterate(search_step(s), (n - 1) as nat));
    } else {
        assert(iterate(s, 1) == iterate(search_step(s), 0));
    }
}

proof fn lemma_iterate_add(s: (Seq<State>, int, Action, int), a: nat, b: nat)
    ensures
        iterate(s, a + b) == iterate(iterate(s, a), b),
    decreases a,
{
    if a > 0 {
        lemma_iterate_add(search_step(s), (a - 1) as nat, b);
    }
}

proof fn lemma_iterate_ended(t: (Seq<State>, int, Action, int), m: nat)
    requires
        t.1 == 0 || t.1 == 82,
    ensures
        iterate(t, m) == t,
    decreases m,
{
    if m > 0 {
        lemma_iterate_ended(t, (m - 1) as nat);
    }
}

/// The search is a function of the board and the counter it starts from: two
/// runs on the same start end with the same board, count and outcome.
pub proof fn lemma_search_deterministic(
    cells: Seq<State>,
    steps: int,
    a1: Seq<State>,
    s1: int,
    r1: SolveStatus,
    a2: Seq<State>,
    s2: int,
    r2: SolveStatus,
)
    requires
        search_ends(cells, steps, a1, s1, r1),
        search_ends(cells, steps, a2, s2, r2),
        r1 == SolveStatus::Solved || r1 == SolveStatus::Failed,
        r2 == SolveStatus::Solved || r2 == SolveStatus::Failed,
    ensures
        a1 == a2,
        s1 == s2,
        r1 == r2,
{
    let init = (cells, 1int, Action::Advance, steps);
    let n1 = choose|n: nat|
        #[trigger] iterate(init, n) == (
            a1,
            if r1 == SolveStatus::Solved { 82int } else { 0int },
            if r1 == SolveStatus::Solved { Action::Advance } else { Action::Backtrace },
            s1,
        );
    let n2 = choose|n: nat|
        #[trigger] iterate(init, n) == (
            a2,
            if r2 == SolveStatus::Solved { 82int } else { 0int },
            if r2 == SolveStatus::Solved { Action::Advance } else { Action::Backtrace },
            s2,
        );
    if n1 <= n2 {
        lemma_iterate_add(init, n1, (n2 - n1) as nat);
        lemma_iterate_ended(iterate(init, n1), (n2 - n1) as nat);
    } else {
        lemma_iterate_add(init, n2, (n1 - n2) as nat);
        lemma_iterate_ended(iterate(init, n2), (n1 - n2) as nat);
    }
}

proof fn lemma_first_free(cells: Seq<State>, p: int, k0: int, k: int)
    requires
        k0 <= k <= 10,
        forall|j: int| k0 <= j < k ==> !#[trigger] free(cells, p, j),
        k == 10 || free(cells, p, k),
    ensures
        first_free(cells, p, k0) == k,
    decreases k - k0,
{
    if k0 < k {
        lemma_first_free(cells, p, k0 + 1, k);
    }
}

/// The digit a scan of the masks stops at is the least allowed digit.
proof fn lemma_scan_first(
    cells: Seq<State>,
    rows: Seq<u16>,
    cols: Seq<u16>,
    boxes: Seq<u16>,
    p: int,
    k0: int,
    k: int,
)
    requires
        mask_matches(cells, rows, 0),
        mask_matches(cells, cols, 1),
        mask_matches(cells, boxes, 2),
        0 <= p < 81,
        1 <= k0 <= k <= 10,
        forall|j: u16|
            k0 <= j < k ==> (#[trigger] bit(rows[row_of(p)], j) || bit(cols[col_of(p)], j) || bit(
                boxes[box_of(p)],
                j,
            )),
        k < 10 ==> !bit(rows[row_of(p)], k as u16) && !bit(cols[col_of(p)], k as u16) && !bit(
            boxes[box_of(p)],
            k as u16,
        ),
    ensures
        first_free(cells, p, k0) == k,
{
    Grid::lemma_units(p);
    assert forall|j: int| k0 <= j < k implies !#[trigger] free(cells, p, j) by {
        assert(bit(rows[row_of(p)], j as u16) || bit(cols[col_of(p)], j as u16) || bit(
            boxes[box_of(p)],
            j as u16,
        ));
    }
    if k < 10 {
        assert(!bit(rows[row_of(p)], k as u16));
        assert(!bit(cols[col_of(p)], k as u16));
        assert(!bit(boxes[box_of(p)], k as u16));
    }
    lemma_first_free(cells, p, k0, k);
}

impl Grid {
    /// The cells of the board.
    pub closed spec fn cells(&self) -> Seq<State> {
        self.grid@
    }

    /// The row masks, then the column masks, then the box masks.
    pub closed spec fn masks(&self) -> Seq<u16> {
        self.rowcheck@ + self.colcheck@ + self.sqcheck@
    }

    /// The number of backtrack steps counted so far.
    pub closed spec fn steps(&self) -> u32 {
        self.count
    }

    /// 81 cells holding digits 1 to 9 or blanks, and masks that match the cells.
    pub closed spec fn wf(&self) -> bool {
        &&& self.grid@.len() == 81
        &&& forall|q: int| 0 <= q < 81 ==> valid_cell(#[trigger] self.grid@[q])
        &&& mask_matches(self.grid@, self.rowcheck@, 0)
        &&& mask_matches(self.grid@, self.colcheck@, 1)
        &&& mask_matches(self.grid@, self.sqcheck@, 2)
    }

    /// An empty board, to be filled by `parse`.
    pub fn new() -> (g: Self)
        ensures
            g.cells().len() == 0,
            g.steps() == 0,
            g.masks() == Seq::new(27, |i: int| 0u16),
    {
        let g = Grid { grid: Vec::<State>::new(), count: 0, colcheck: [0;9], rowcheck: [0;9], sqcheck: [0;9] };
        assert(g.masks() =~= Seq::new(27, |i: int| 0u16));
        g
    }

    /// The number of backtrack steps counted so far.
    pub fn count(&self) -> (r: u32)
        ensures
            r == self.steps(),
    {
        self.count
    }

    /// The cell at row `i`, column `j`.
    pub fn cell(&self, i: usize, j: usize) -> (r: State)
        requires
            self.wf(),
            i < 9,
            j < 9,
        ensures
            r == self.cells()[i * 9 + j],
    {
        self.grid[i * 9 + j]
    }

    proof fn lemma_units(k: int)
        requires
            0 <= k < 81,
        ensures
            0 <= row_of(k) < 9,
            0 <= col_of(k) < 9,
            0 <= box_of(k) < 9,
            unit_of(0, k) == row_of(k),
            unit_of(1, k) == col_of(k),
            unit_of(2, k) == box_of(k),
    {
    }

    fn check(&self, n: u8, k: usize) -> (r: bool)
        requires
            n < 16,
            k < 81,
            self.rowcheck@.len() == 9,
            self.colcheck@.len() == 9,
            self.sqcheck@.len() == 9,
        ensures
            r == (!bit(self.rowcheck@[row_of(k as int)], n as u16) && !bit(
                self.colcheck@[col_of(k as int)],
                n as u16,
            ) && !bit(self.sqcheck@[box_of(k as int)], n as u16)),
    {
        proof {
            Self::lemma_units(k as int);
        }
        let i0 = k / 9;
        let j0 = k % 9;
        let b: u16 = 1u16 << (n as u16);
        self.rowcheck[i0] & b == 0 && self.colcheck[j0] & b == 0 && self.sqcheck[i0 - i0 % 3 + j0
            / 3] & b == 0
    }

    fn toggle(&mut self, n: u8, k: usize)
        requires
            n < 16,
            k < 81,
        ensures
            final(self).grid == old(self).grid,
            final(self).count == old(self).count,
            final(self).rowcheck@ == flipped(old(self).rowcheck@, row_of(k as int), n as u16),
            final(self).colcheck@ == flipped(old(self).colcheck@, col_of(k as int), n as u16),
            final(self).sqcheck@ == flipped(old(self).sqcheck@, box_of(k as int), n as u16),
    {
        proof {
            Self::lemma_units(k as int);
        }
        let i0 = k / 9;
        let j0 = k % 9;
        let s0 = i0 - i0 % 3 + j0 / 3;
        let b: u16 = 1u16 << (n as u16);
        let r = self.rowcheck[i0] ^ b;
        self.rowcheck[i0] = r;
        let c = self.colcheck[j0] ^ b;
        self.colcheck[j0] = c;
        let q = self.sqcheck[s0] ^ b;
        self.sqcheck[s0] = q;
        assert(self.rowcheck@ =~= flipped(old(self).rowcheck@, row_of(k as int), n as u16));
        assert(self.colcheck@ =~= flipped(old(self).colcheck@, col_of(k as int), n as u16));
        assert(self.sqcheck@ =~= flipped(old(self).sqcheck@, box_of(k as int), n as u16));
    }

    /// Records digit `n` as placed at position `k`.
    fn forbid(&mut self, n: u8, k: usize)
        requires
            n < 16,
            k < 81,
        ensures
            final(self).grid == old(self).grid,
            final(self).count == old(self).count,
            final(self).rowcheck@ == flipped(old(self).rowcheck@, row_of(k as int), n as u16),
            final(self).colcheck@ == flipped(old(self).colcheck@, col_of(k as int), n as u16),
            final(self).sqcheck@ == flipped(old(self).sqcheck@, box_of(k as int), n as u16),
    {
        self.toggle(n, k);
    }

    /// Records digit `n` as taken back from position `k`.
    fn allow(&mut self, n: u8, k: usize)
        requires
            n < 16,
            k < 81,
        ensures
            final(self).grid == old(self).grid,
            final(self).count == old(self).count,
            final(self).rowcheck@ == flipped(old(self).rowcheck@, row_of(k as int), n as u16),
            final(self).colcheck@ == flipped(old(self).colcheck@, col_of(k as int), n as u16),
            final(self).sqcheck@ == flipped(old(self).sqcheck@, box_of(k as int), n as u16),
    {
        self.toggle(n, k);
    }

    /// Reads a puzzle line into the board, replacing whatever it held.
    pub fn parse(&mut self, str: String) -> (r: ReadStatus)
        ensures
            final(self).wf(),
            final(self).cells() == parse_cells(str@),
            final(self).steps() == 0,
            r == parse_status(str@),
            str@.len() < 81 ==> r == ReadStatus::TooShort,
            str@.len() >= 81 && (exists|q: int| 0 <= q < 81 && !char_ok(#[trigger] str@[q]))
                ==> r == ReadStatus::InvalidChr,
    {
        self.parse_str(str.as_str())
    }

    /// Reads a puzzle line into the board, replacing whatever it held.
    pub fn parse_str(&mut self, text: &str) -> (r: ReadStatus)
        ensures
            final(self).wf(),
            final(self).cells() == parse_cells(text@),
            final(self).steps() == 0,
            r == parse_status(text@),
            text@.len() < 81 ==> r == ReadStatus::TooShort,
            text@.len() >= 81 && (exists|q: int| 0 <= q < 81 && !char_ok(#[trigger] text@[q]))
                ==> r == ReadStatus::InvalidChr,
    {
        self.count = 0;
        self.colcheck = [0;9];
        self.rowcheck = [0;9];
        self.sqcheck = [0;9];
        self.grid = Vec::<State>::new();
        let mut res = ReadStatus::Valid;
        let len = text.unicode_len();
        let ghost t = text@;
        proof {
            assert forall|u: int, d: u16| 0 <= u < 9 && d < 16 implies #[trigger] bit(
                self.rowcheck@[u],
                d,
            ) == (1 <= d <= 9 && tally(self.grid@, 0, u, d as int) % 2 == 1) by {
                lemma_zero_bits(d);
            }
            assert forall|u: int, d: u16| 0 <= u < 9 && d < 16 implies #[trigger] bit(
                self.colcheck@[u],
                d,
            ) == (1 <= d <= 9 && tally(self.grid@, 1, u, d as int) % 2 == 1) by {
                lemma_zero_bits(d);
            }
            assert forall|u: int, d: u16| 0 <= u < 9 && d < 16 implies #[trigger] bit(
                self.sqcheck@[u],
                d,
            ) == (1 <= d <= 9 && tally(self.grid@, 2, u, d as int) % 2 == 1) by {
                lemma_zero_bits(d);
            }
        }
        let mut k: usize = 0;
        while k < 81
            invariant
                k <= 81,
                len == t.len(),
                t == text@,
                self.grid@.len() == k,
                self.count == 0,
                forall|q: int| 0 <= q < k ==> #[trigger] self.grid@[q] == parse_cells(t)[q],
                forall|q: int| 0 <= q < k ==> valid_cell(#[trigger] self.grid@[q]),
                mask_matches(self.grid@, self.rowcheck@, 0),
                mask_matches(self.grid@, self.colcheck@, 1),
                mask_matches(self.grid@, self.sqcheck@, 2),
                k <= len ==> res == (if exists|q: int| 0 <= q < k && !char_ok(#[trigger] t[q]) {
                    ReadStatus::InvalidChr
                } else {
                    ReadStatus::Valid
                }),
                k > len ==> res == ReadStatus::TooShort,
            decreases 81 - k,
        {
            let ghost before = self.grid@;
            let cell;
            if k < len {
                let c = text.get_char(k);
                if c == '_' || c == '.' || c == '0' {
                    cell = State::Blank;
                } else if '1' <= c && c <= '9' {
                    let n = (c as u32 - '0' as u32) as u8;
                    cell = State::Given(n);
                } else {
                    res = ReadStatus::InvalidChr;
                    cell = State::Blank;
                }
                proof {
                    assert(cell == cell_of_char(t[k as int]));
                    if !char_ok(t[k as int]) {
                        assert(exists|q: int| 0 <= q < k + 1 && !char_ok(#[trigger] t[q]));
                    }
                    if exists|q: int| 0 <= q < k + 1 && !char_ok(#[trigger] t[q]) {
                        if char_ok(t[k as int]) {
                            let w = choose|q: int| 0 <= q < k + 1 && !char_ok(#[trigger] t[q]);
                            assert(w < k);
                        }
                    }
                }
            } else {
                res = ReadStatus::TooShort;
                cell = State::Blank;
            }
            self.grid.push(cell);
            proof {
                Self::lemma_units(k as int);
                assert(self.grid@ == before.push(cell));
                let blank_ext = before.push(State::Blank);
                assert forall|kind: int, u: int, d: int| 0 <= kind < 3 implies tally(blank_ext, kind, u, d) == tally(before, kind, u, d) + (if unit_of(kind, k as int) == u && 0 == d { 1int } else { 0int }) by {
                    lemma_tally_push(before, State::Blank, kind, u, d);
                }
                assert(blank_ext.update(k as int, cell) == self.grid@);
            }
            if let State::Given(n) = cell {
                proof {
                    let blank_ext = before.push(State::Blank);
                    assert(mask_matches(blank_ext, self.rowcheck@, 0));
                    assert(mask_matches(blank_ext, self.colcheck@, 1));
                    assert(mask_matches(blank_ext, self.sqcheck@, 2));
                    lemma_flip(blank_ext, self.rowcheck@, 0, k as int, cell, n as u16);
                    lemma_flip(blank_ext, self.colcheck@, 1, k as int, cell, n as u16);
                    lemma_flip(blank_ext, self.sqcheck@, 2, k as int, cell, n as u16);
                }
                self.forbid(n, k);
            } else {
                proof {
                    assert forall|kind: int, u: int, d: int| 0 <= kind < 3 implies tally(self.grid@, kind, u, d) == tally(before, kind, u, d) + (if unit_of(kind, k as int) == u && 0 == d { 1int } else { 0int }) by {
                        lemma_tally_push(before, State::Blank, kind, u, d);
                    }
                }
            }
            k = k + 1;
        }
        assert(self.grid@ =~= parse_cells(t));
        res
    }
    /// The symbol of a cell as a one-character string.
    fn symbol_str(s: State) -> (r: &'static str)
        ensures
            r@ == seq![symbol(s)],
    {
        let v: u8 = match s {
            State::Given(v) => v,
            State::Guess(v) => v,
            State::Blank => 0,
        };
        if v == 1 {
            proof { reveal_strlit("1"); }
            "1"
        } else if v == 2 {
            proof { reveal_strlit("2"); }
            "2"
        } else if v == 3 {
            proof { reveal_strlit("3"); }
            "3"
        } else if v == 4 {
            proof { reveal_strlit("4"); }
            "4"
        } else if v == 5 {
            proof { reveal_strlit("5"); }
            "5"
        } else if v == 6 {
            proof { reveal_strlit("6"); }
            "6"
        } else if v == 7 {
            proof { reveal_strlit("7"); }
            "7"
        } else if v == 8 {
            proof { reveal_strlit("8"); }
            "8"
        } else if v == 9 {
            proof { reveal_strlit("9"); }
            "9"
        } else {
            proof { reveal_strlit("."); }
            "."
        }
    }

    /// The board as one line of 81 symbols.
    pub fn to_line(&self) -> (r: String)
        requires
            self.wf(),
        ensures
            r@ == line_text(self.cells()),
    {
        let mut out = String::new();
        let mut q: usize = 0;
        while q < 81
            invariant
                q <= 81,
                self.grid@.len() == 81,
                out@ =~= line_text(self.grid@).take(q as int),
            decreases 81 - q,
        {
            let sym = Self::symbol_str(self.grid[q]);
            out.append(sym);
            q += 1;
        }
        out
    }

    /// The board as 9 lines of 9 symbols, each symbol followed by a space.
    pub fn render(&self) -> (r: String)
        requires
            self.wf(),
        ensures
            r@ == rows_text(self.cells()),
    {
        let mut out = String::new();
        let mut i: usize = 0;
        while i < 171
            invariant
                i <= 171,
                self.grid@.len() == 81,
                out@ =~= rows_text(self.grid@).take(i as int),
            decreases 171 - i,
        {
            let col = i % 19;
            if col == 18 {
                proof { reveal_strlit("\n"); }
                out.append("\n");
            } else if col % 2 == 1 {
                proof { reveal_strlit(" "); }
                out.append(" ");
            } else {
                let sym = Self::symbol_str(self.grid[(i / 19) * 9 + col / 2]);
                out.append(sym);
            }
            i += 1;
        }
        out
    }

    /// The board as one line of 81 symbols, each followed by a space, then a newline.
    pub fn render_line(&self) -> (r: String)
        requires
            self.wf(),
        ensures
            r@ == spaced_line_text(self.cells()),
    {
        let mut out = String::new();
        let mut i: usize = 0;
        while i < 163
            invariant
                i <= 163,
                self.grid@.len() == 81,
                out@ =~= spaced_line_text(self.grid@).take(i as int),
            decreases 163 - i,
        {
            if i == 162 {
                proof { reveal_strlit("\n"); }
                out.append("\n");
            } else if i % 2 == 1 {
                proof { reveal_strlit(" "); }
                out.append(" ");
            } else {
                let sym = Self::symbol_str(self.grid[i / 2]);
                out.append(sym);
            }
            i += 1;
        }
        out
    }

    /// Fills the blanks by depth-first search, trying digits in increasing order,
    /// with the board itself as the search stack. Counts one step per retreat.
    pub fn solve(&mut self) -> (r: SolveStatus)
        requires
            old(self).wf(),
            fresh(old(self).cells()),
        ensures
            final(self).wf(),
            solve_outcome(old(self).cells(), final(self).cells(), r),
            final(self).steps() >= old(self).steps(),
            r == SolveStatus::Failed ==> final(self).steps() > old(self).steps() || old(self).steps()
                == u32::MAX,
            all_given(old(self).cells()) ==> final(self).steps() == old(self).steps(),
            r == SolveStatus::Failed ==> final(self).cells() == old(self).cells()
                && final(self).masks() == old(self).masks(),
            search_ends(
                old(self).cells(),
                old(self).steps() as int,
                final(self).cells(),
                final(self).steps() as int,
                r,
            ),
    {
        let ghost start = self.grid@;
        let ghost c0 = self.count;
        let mut idx: usize = 1;
        let mut action = Action::Advance;
        let ghost init = (start, 1int, Action::Advance, c0 as int);
        let ghost mut it: nat = 0;
        proof {
            lemma_prefix_bound(self.grid@, 0);
            lemma_place_grows(82);
        }
        while idx > 0
            invariant
                idx <= 82,
                self.wf(),
                start == old(self).grid@,
                fresh(start),
                mask_matches(start, old(self).rowcheck@, 0),
                mask_matches(start, old(self).colcheck@, 1),
                mask_matches(start, old(self).sqcheck@, 2),
                c0 == old(self).count,
                start.len() == 81,
                init == (start, 1int, Action::Advance, c0 as int),
                iterate(init, it) == (self.grid@, idx as int, action, self.count as int),
                keeps_givens(start, self.grid@),
                self.count >= c0,
                action == Action::Backtrace ==> (self.count > c0 || c0 == u32::MAX),
                action == Action::Advance ==> idx >= 1,
                idx == 82 ==> action == Action::Advance,
                forall|q: int| 0 <= q < idx - 1 ==> !(#[trigger] self.grid@[q] is Blank),
                forall|q: int| idx <= q < 81 ==> !(#[trigger] self.grid@[q] is Guess),
                1 <= idx <= 81 && action == Action::Advance ==> !(self.grid@[idx - 1] is Guess),
                1 <= idx <= 81 && action == Action::Backtrace ==> !(self.grid@[idx - 1] is Blank),
                no_conflict(start) ==> no_conflict(self.grid@),
                all_given(start) ==> (action == Action::Advance && self.count == c0 && self.grid@
                    == start),
                forall|sol: Seq<int>| #[trigger]
                    is_solution(sol, start) ==> (if action == Action::Advance {
                        !lex_below(sol, self.grid@, idx - 1)
                    } else {
                        !lex_below(sol, self.grid@, idx as int) && !agree(
                            sol,
                            self.grid@,
                            idx as int,
                        )
                    }),
                0 <= place(82) - progress(self.grid@, idx as int, action),
            decreases place(82) - progress(self.grid@, idx as int, action), 82 - idx,
        {
            if idx == 82 {
                proof {
                    if no_conflict(start) {
                        let v = values(self.grid@);
                        assert forall|q: int| 0 <= q < 81 implies 1 <= #[trigger] v[q] <= 9 by {
                            assert(valid_cell(self.grid@[q]));
                        }
                        assert forall|q: int| 0 <= q < 81 && (#[trigger] start[q] is Given) implies v[q] == value(start[q]) by {
                            assert(self.grid@[q] == start[q]);
                        }
                        assert forall|a: int, b: int|
                            0 <= a < 81 && 0 <= b < 81 && a != b && same_unit(a, b) implies #[trigger] v[a] != #[trigger] v[b] by {
                            assert(valid_cell(self.grid@[a]));
                            assert(value(self.grid@[a]) != value(self.grid@[b]));
                        }
                    }
                }
                assert(iterate((old(self).grid@, 1int, Action::Advance, old(self).count as int), it)
                    == (self.grid@, 82int, Action::Advance, self.count as int));
                assert(self.count >= c0);
                assert(all_given(start) ==> self.grid@ == start);
                return SolveStatus::Solved;
            }
            let p = idx - 1;
            let ghost cells0 = self.grid@;
            let ghost count0 = self.count;
            let ghost act0 = action;
            let ghost idx0 = idx;
            proof {
                Self::lemma_units(p as int);
                lemma_prefix_bound(cells0, p as int);
                lemma_prefix_bound(cells0, p as int + 1);
                lemma_place_grows(81 - p);
                lemma_place_grows(82 - p);
                assert(valid_cell(cells0[p as int]));
            }
            match self.grid[p] {
                State::Blank => {
                    let mut k: u8 = 1;
                    while !self.check(k, p)
                        invariant
                            1 <= k <= 10,
                            p < 81,
                            self.wf(),
                            forall|j: u16|
                                1 <= j < k ==> (#[trigger] bit(self.rowcheck@[row_of(p as int)], j)
                                    || bit(self.colcheck@[col_of(p as int)], j) || bit(
                                    self.sqcheck@[box_of(p as int)],
                                    j,
                                )),
                        decreases 10 - k,
                    {
                        k += 1;
                    }
                    proof {
                        lemma_scan(cells0, self.rowcheck@, self.colcheck@, self.sqcheck@, start, p as int, 1, k as int);
                        lemma_scan_first(cells0, self.rowcheck@, self.colcheck@, self.sqcheck@, p as int, 1, k as int);
                    }
                    if k < 10 {
                        let ghost next = cells0.update(p as int, State::Guess(k));
                        proof {
                            lemma_flip(cells0, self.rowcheck@, 0, p as int, State::Guess(k), k as u16);
                            lemma_flip(cells0, self.colcheck@, 1, p as int, State::Guess(k), k as u16);
                            lemma_flip(cells0, self.sqcheck@, 2, p as int, State::Guess(k), k as u16);
                            if no_conflict(start) {
                                assert forall|kind: int| 0 <= kind < 3 implies #[trigger] tally(cells0, kind, unit_of(kind, p as int), k as int) % 2 == 0 by {
                                    assert(!bit(self.rowcheck@[row_of(p as int)], k as u16));
                                    assert(!bit(self.colcheck@[col_of(p as int)], k as u16));
                                    assert(!bit(self.sqcheck@[box_of(p as int)], k as u16));
                                }
                                lemma_place_ok(cells0, p as int, k);
                            }
                        }
                        self.grid.set(p, State::Guess(k));
                        action = Action::Advance;
                        self.forbid(k, p);
                        idx += 1;
                        proof {
                            assert(self.grid@ == next);
                            lemma_prefix_frame(next, cells0, p as int);
                            let w = place(81 - p);
                            assert(k * w >= w) by (nonlinear_arith)
                                requires
                                    k >= 1,
                                    w >= 1,
                            ;
                            assert forall|sol: Seq<int>| #[trigger] is_solution(sol, start) implies !lex_below(sol, next, p as int + 1) by {
                                lemma_lex_step(sol, next, p as int);
                                lemma_prefix_only(sol, cells0, p as int, State::Guess(k), p as int);
                            }
                            lemma_prefix_bound(next, p as int + 1);
                            assert(forall|q: int| 0 <= q < 81 ==> valid_cell(#[trigger] self.grid@[q]));
                        }
                    } else {
                        idx -= 1;
                        if self.count < u32::MAX {
                            self.count += 1;
                        }
                        action = Action::Backtrace;
                        proof {
                            assert forall|sol: Seq<int>| #[trigger] is_solution(sol, start) implies !lex_below(sol, cells0, p as int) && !agree(sol, cells0, p as int) by {
                                assert(1 <= sol[p as int] <= 9);
                            }
                        }
                    }
                }
                State::Given(_) => {
                    match action {
                        Action::Advance => {
                            idx += 1;
                            proof {
                                assert forall|sol: Seq<int>| #[trigger] is_solution(sol, start) implies !lex_below(sol, cells0, p as int + 1) by {
                                    lemma_lex_step(sol, cells0, p as int);
                                    assert(start[p as int] == cells0[p as int]);
                                }
                            }
                        }
                        Action::Backtrace => {
                            idx -= 1;
                            proof {
                                assert forall|sol: Seq<int>| #[trigger] is_solution(sol, start) implies !lex_below(sol, cells0, p as int) && !agree(sol, cells0, p as int) by {
                                    lemma_lex_step(sol, cells0, p as int);
                                    lemma_agree_step(sol, cells0, p as int);
                                    assert(start[p as int] == cells0[p as int]);
                                }
                            }
                        }
                    }
                }
                State::Guess(c) => {
                    let ghost blanked = cells0.update(p as int, State::Blank);
                    proof {
                        lemma_flip(cells0, self.rowcheck@, 0, p as int, State::Blank, c as u16);
                        lemma_flip(cells0, self.colcheck@, 1, p as int, State::Blank, c as u16);
                        lemma_flip(cells0, self.sqcheck@, 2, p as int, State::Blank, c as u16);
                        if no_conflict(start) {
                            lemma_blank_ok(cells0, p as int);
                        }
                    }
                    if action == Action::Backtrace {
                        self.allow(c, p);
                    }
                    let mut k: u8 = c + 1;
                    while !self.check(k, p)
                        invariant
                            c + 1 <= k <= 10,
                            1 <= c <= 9,
                            p < 81,
                            mask_matches(blanked, self.rowcheck@, 0),
                            mask_matches(blanked, self.colcheck@, 1),
                            mask_matches(blanked, self.sqcheck@, 2),
                            forall|j: u16|
                                c + 1 <= j < k ==> (#[trigger] bit(self.rowcheck@[row_of(p as int)], j)
                                    || bit(self.colcheck@[col_of(p as int)], j) || bit(
                                    self.sqcheck@[box_of(p as int)],
                                    j,
                                )),
                        decreases 10 - k,
                    {
                        k += 1;
                    }
                    proof {
                        assert(forall|q: int| p < q < 81 ==> blanked[q] == cells0[q]);
                        assert(keeps_givens(start, blanked));
                        lemma_scan(blanked, self.rowcheck@, self.colcheck@, self.sqcheck@, start, p as int, c as int + 1, k as int);
                        lemma_scan_first(blanked, self.rowcheck@, self.colcheck@, self.sqcheck@, p as int, c as int + 1, k as int);
                    }
                    if k < 10 {
                        let ghost next = blanked.update(p as int, State::Guess(k));
                        proof {
                            lemma_flip(blanked, self.rowcheck@, 0, p as int, State::Guess(k), k as u16);
                            lemma_flip(blanked, self.colcheck@, 1, p as int, State::Guess(k), k as u16);
                            lemma_flip(blanked, self.sqcheck@, 2, p as int, State::Guess(k), k as u16);
                            if no_conflict(start) {
                                assert forall|kind: int| 0 <= kind < 3 implies #[trigger] tally(blanked, kind, unit_of(kind, p as int), k as int) % 2 == 0 by {
                                    assert(!bit(self.rowcheck@[row_of(p as int)], k as u16));
                                    assert(!bit(self.colcheck@[col_of(p as int)], k as u16));
                                    assert(!bit(self.sqcheck@[box_of(p as int)], k as u16));
                                }
                                lemma_place_ok(blanked, p as int, k);
                            }
                        }
                        self.grid.set(p, State::Guess(k));
                        action = Action::Advance;
                        self.forbid(k, p);
                        idx += 1;
                        proof {
                            assert(next =~= cells0.update(p as int, State::Guess(k)));
                            assert(self.grid@ == next);
                            lemma_prefix_frame(next, cells0, p as int);
                            let w = place(81 - p);
                            assert(k * w >= c * w + w) by (nonlinear_arith)
                                requires
                                    k >= c + 1,
                                    w >= 1,
                            ;
                            assert(prefix_code(cells0, p as int + 1) == prefix_code(cells0, p as int) + c * w);
                            assert(prefix_code(next, p as int + 1) == prefix_code(cells0, p as int) + k * w);
                            assert forall|sol: Seq<int>| #[trigger] is_solution(sol, start) implies !lex_below(sol, next, p as int + 1) by {
                                lemma_lex_step(sol, next, p as int);
                                lemma_lex_step(sol, cells0, p as int);
                                lemma_agree_step(sol, cells0, p as int);
                                lemma_prefix_only(sol, cells0, p as int, State::Guess(k), p as int);
                                lemma_prefix_only(sol, cells0, p as int, State::Blank, p as int);
                            }
                            lemma_prefix_bound(next, p as int + 1);
                            assert(forall|q: int| 0 <= q < 81 ==> valid_cell(#[trigger] self.grid@[q]));
                        }
                    } else {
                        self.grid.set(p, State::Blank);
                        idx -= 1;
                        if self.count < u32::MAX {
                            self.count += 1;
                        }
                        action = Action::Backtrace;
                        proof {
                            assert(self.grid@ == blanked);
                            lemma_prefix_frame(blanked, cells0, p as int);
                            let w = place(81 - p);
                            assert(c * w + w <= 10 * w) by (nonlinear_arith)
                                requires
                                    c <= 9,
                                    w >= 1,
                            ;
                            assert(prefix_code(cells0, p as int + 1) == prefix_code(cells0, p as int) + c * w);
                            assert(place(82 - p) == 11 * w);
                            assert forall|sol: Seq<int>| #[trigger] is_solution(sol, start) implies !lex_below(sol, blanked, p as int) && !agree(sol, blanked, p as int) by {
                                lemma_lex_step(sol, cells0, p as int);
                                lemma_agree_step(sol, cells0, p as int);
                                lemma_prefix_only(sol, cells0, p as int, State::Blank, p as int);
                                assert(1 <= sol[p as int] <= 9);
                            }
                            assert(forall|q: int| 0 <= q < 81 ==> valid_cell(#[trigger] self.grid@[q]));
                        }
                    }
                }
            }
            proof {
                assert(search_step((cells0, idx0 as int, act0, count0 as int)) == (
                    self.grid@,
                    idx as int,
                    action,
                    self.count as int,
                ));
                lemma_iterate_last(init, it);
                it = it + 1;
            }
        }
        proof {
            assert(iterate((old(self).grid@, 1int, Action::Advance, old(self).count as int), it)
                == (self.grid@, 0int, Action::Backtrace, self.count as int));
            assert forall|sol: Seq<int>| !is_solution(sol, start) by {
                if is_solution(sol, start) {
                    assert(agree(sol, self.grid@, 0));
                }
            }
            assert forall|q: int| 0 <= q < 81 implies #[trigger] self.grid@[q] == start[q] by {
                if !(start[q] is Given) {
                    assert(!(self.grid@[q] is Given));
                    assert(!(self.grid@[q] is Guess));
                    assert(!(start[q] is Guess));
                }
            }
            assert(self.grid@ =~= start);
            assert forall|u: int| 0 <= u < 9 implies #[trigger] self.rowcheck@[u] == old(self).rowcheck@[u] by {
                assert forall|d: u16| d < 16 implies #[trigger] bit(self.rowcheck@[u], d) == bit(old(self).rowcheck@[u], d) by {}
                lemma_mask_ext(self.rowcheck@[u], old(self).rowcheck@[u]);
            }
            assert(self.rowcheck@ =~= old(self).rowcheck@);
            assert forall|u: int| 0 <= u < 9 implies #[trigger] self.colcheck@[u] == old(self).colcheck@[u] by {
                assert forall|d: u16| d < 16 implies #[trigger] bit(self.colcheck@[u], d) == bit(old(self).colcheck@[u], d) by {}
                lemma_mask_ext(self.colcheck@[u], old(self).colcheck@[u]);
            }
            assert(self.colcheck@ =~= old(self).colcheck@);
            assert forall|u: int| 0 <= u < 9 implies #[trigger] self.sqcheck@[u] == old(self).sqcheck@[u] by {
                assert forall|d: u16| d < 16 implies #[trigger] bit(self.sqcheck@[u], d) == bit(old(self).sqcheck@[u], d) by {}
                lemma_mask_ext(self.sqcheck@[u], old(self).sqcheck@[u]);
            }
            assert(self.sqcheck@ =~= old(self).sqcheck@);
        }
        SolveStatus::Failed
    }
}

} // verus!
