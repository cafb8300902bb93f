use sudoku::batch::{load_batch, solve_batch, solve_entry};
use sudoku::grid::{Grid, ReadStatus, SolveStatus, State};

const CLASSIC: &str =
    "53..7....6..195....98....6.8...6...34..8.3..17...2...6.6....28....419..5....8..79";
const CLASSIC_SOLVED: &str =
    "534678912672195348198342567859761423426853791713924856961537284287419635345286179";
const BLANK_SOLVED: &str =
    "123456789456789123789123456214365897365897214897214365531642978642978531978531642";

#[test]
fn classic_puzzle_is_solved() {
    let mut g = Grid::new();
    assert_eq!(g.parse(CLASSIC.to_string()), ReadStatus::Valid);
    assert_eq!(g.solve(), SolveStatus::Solved);
    assert_eq!(g.count(), 4157);
    assert_eq!(g.to_line(), CLASSIC_SOLVED);
    assert_eq!(g.cell(0, 0), State::Given(5));
    assert_eq!(g.cell(0, 2), State::Guess(4));
}

#[test]
fn blank_board_gets_smallest_completion() {
    let mut g = Grid::new();
    assert_eq!(g.parse(".".repeat(81)), ReadStatus::Valid);
    assert_eq!(g.solve(), SolveStatus::Solved);
    assert_eq!(g.count(), 310);
    assert_eq!(g.to_line(), BLANK_SOLVED);
}

#[test]
fn dead_cell_fails_with_steps() {
    let mut g = Grid::new();
    let line = format!("12345678.........9{}", ".".repeat(63));
    assert_eq!(g.parse(line), ReadStatus::Valid);
    assert_eq!(g.solve(), SolveStatus::Failed);
    assert_eq!(g.count(), 1);
}

#[test]
fn short_line_is_too_short() {
    let mut g = Grid::new();
    assert_eq!(g.parse(".".repeat(80)), ReadStatus::TooShort);
    assert_eq!(g.parse(String::new()), ReadStatus::TooShort);
    assert_eq!(g.parse("x".repeat(10)), ReadStatus::TooShort);
}

#[test]
fn stray_character_is_invalid() {
    let mut g = Grid::new();
    let line = format!("x{}", ".".repeat(80));
    assert_eq!(g.parse(line), ReadStatus::InvalidChr);
    assert_eq!(g.cell(0, 0), State::Blank);
}

#[test]
fn blank_symbols_all_read_as_blank() {
    let mut g = Grid::new();
    let line = format!("_.0{}", "1".repeat(78));
    assert_eq!(g.parse(line), ReadStatus::Valid);
    assert_eq!(g.cell(0, 0), State::Blank);
    assert_eq!(g.cell(0, 1), State::Blank);
    assert_eq!(g.cell(0, 2), State::Blank);
    assert_eq!(g.cell(0, 3), State::Given(1));
}

#[test]
fn round_trip_through_line() {
    let mut g = Grid::new();
    g.parse(CLASSIC.to_string());
    g.solve();
    let mut h = Grid::new();
    assert_eq!(h.parse(g.to_line()), ReadStatus::Valid);
    assert_eq!(h.to_line(), CLASSIC_SOLVED);
    assert_eq!(h.cell(0, 2), State::Given(4));
}

#[test]
fn full_board_solves_without_steps() {
    let mut g = Grid::new();
    g.parse(CLASSIC_SOLVED.to_string());
    assert_eq!(g.solve(), SolveStatus::Solved);
    assert_eq!(g.count(), 0);
    assert_eq!(g.to_line(), CLASSIC_SOLVED);
}

#[test]
fn render_shows_rows() {
    let mut g = Grid::new();
    g.parse(CLASSIC.to_string());
    let text = g.render();
    assert_eq!(text.lines().next(), Some("5 3 . . 7 . . . . "));
    assert_eq!(text.lines().count(), 9);
}

#[test]
fn batch_skips_bad_lines_and_keeps_order() {
    let lines = vec![
        CLASSIC.to_string(),
        ".".repeat(80),
        format!("?{}", ".".repeat(80)),
        ".".repeat(81),
    ];
    let mut b = load_batch(&lines);
    assert_eq!(b.len(), 2);
    assert_eq!(b[0].line, 0);
    assert_eq!(b[1].line, 3);
    assert_eq!(b[0].status, SolveStatus::Unknown);
    solve_batch(&mut b);
    assert_eq!(b[0].status, SolveStatus::Solved);
    assert_eq!(b[0].grid.to_line(), CLASSIC_SOLVED);
    assert_eq!(b[1].grid.to_line(), BLANK_SOLVED);
}

#[test]
fn single_entry_is_solved() {
    let lines = vec![".".repeat(81)];
    let mut b = load_batch(&lines);
    solve_entry(&mut b[0]);
    assert_eq!(b[0].status, SolveStatus::Solved);
    assert_eq!(b[0].grid.count(), 310);
}

#[test]
fn repeated_runs_agree() {
    let mut a = Grid::new();
    let mut b = Grid::new();
    a.parse(CLASSIC.to_string());
    b.parse(CLASSIC.to_string());
    assert_eq!(a.solve(), b.solve());
    assert_eq!(a.count(), b.count());
    assert_eq!(a.to_line(), b.to_line());
    let mut c = Grid::new();
    c.parse(".".repeat(81));
    c.solve();
    let mut d = Grid::new();
    d.parse(".".repeat(81));
    d.solve();
    assert_eq!(c.count(), d.count());
    assert_eq!(c.to_line(), d.to_line());
}

#[test]
fn failed_search_restores_board() {
    let mut g = Grid::new();
    let line = format!("12345678.........9{}", ".".repeat(63));
    g.parse(line.clone());
    let before = g.to_line();
    assert_eq!(g.solve(), SolveStatus::Failed);
    assert_eq!(g.to_line(), before);
    assert_eq!(g.cell(0, 8), State::Blank);
    assert_eq!(g.cell(1, 8), State::Given(9));
}

#[test]
fn spaced_line_rendering() {
    let mut g = Grid::new();
    g.parse(CLASSIC.to_string());
    let text = g.render_line();
    assert_eq!(text.len(), 163);
    assert!(text.starts_with("5 3 . . 7 . . . . 6 . . "));
    assert!(text.ends_with("8 . . 7 9 \n"));
}

#[test]
fn parse_resets_a_used_board() {
    let mut g = Grid::new();
    g.parse(CLASSIC.to_string());
    g.solve();
    assert_eq!(g.parse(".".repeat(81)), ReadStatus::Valid);
    assert_eq!(g.count(), 0);
    assert_eq!(g.solve(), SolveStatus::Solved);
    assert_eq!(g.to_line(), BLANK_SOLVED);
}
