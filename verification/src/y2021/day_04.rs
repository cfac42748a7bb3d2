//! Giant squid: bingo boards, the first to win and the last.

use crate::number::{decimal, format_u64, parse_u8s, u8s};
use crate::text::{
    blocks, lemma_blocks_not_empty, non_empty, pieces, rows, rows_of, split, split_by, views,
};
use vstd::prelude::*;

verus! {

/// A board of five rows of five numbers; a marked number is nought.
pub type Grid = [[u8; 5]; 5];

/// The rows of a board.
pub open spec fn cells(grid: Grid) -> Seq<Seq<u8>> {
    Seq::new(5, |l: int| grid@[l]@)
}

/// What stands in a cell once `number` is marked: nought where the cell held it.
pub open spec fn mark(cell: u8, number: u8) -> u8 {
    if cell == number {
        0
    } else {
        cell
    }
}

/// The board with every `number` on it marked.
pub open spec fn marked(board: Seq<Seq<u8>>, number: u8) -> Seq<Seq<u8>> {
    Seq::new(board.len(), |l: int| Seq::new(board[l].len(), |c: int| mark(board[l][c], number)))
}

/// Marks every `number` on the board.
pub fn replace_number(grid: &mut Grid, number: u8)
    ensures
        cells(*final(grid)) == marked(cells(*old(grid)), number),
{
    let ghost before = *grid;
    let mut l: usize = 0;
    while l < 5
        invariant
            0 <= l <= 5,
            forall|i: int, k: int|
                0 <= i < l && 0 <= k < 5 ==> (#[trigger] grid@[i]@[k]) == mark(
                    before@[i]@[k],
                    number,
                ),
            forall|i: int, k: int|
                l <= i < 5 && 0 <= k < 5 ==> (#[trigger] grid@[i]@[k]) == before@[i]@[k],
        decreases 5 - l,
    {
        let mut c: usize = 0;
        while c < 5
            invariant
                0 <= l < 5,
                0 <= c <= 5,
                forall|i: int, k: int|
                    0 <= i < l && 0 <= k < 5 ==> (#[trigger] grid@[i]@[k]) == mark(
                        before@[i]@[k],
                        number,
                    ),
                forall|i: int, k: int|
                    l < i < 5 && 0 <= k < 5 ==> (#[trigger] grid@[i]@[k]) == before@[i]@[k],
                forall|k: int|
                    0 <= k < c ==> (#[trigger] grid@[l as int]@[k]) == mark(
                        before@[l as int]@[k],
                        number,
                    ),
                forall|k: int|
                    c <= k < 5 ==> (#[trigger] grid@[l as int]@[k]) == before@[l as int]@[k],
            decreases 5 - c,
        {
            if grid[l][c] == number {
                grid[l][c] = 0;
            }
            c += 1;
        }
        l += 1;
    }
    assert(cells(*grid) =~~= marked(cells(before), number));
}

/// The rows of each of the boards.
pub open spec fn all_cells(grids: Seq<Grid>) -> Seq<Seq<Seq<u8>>> {
    grids.map_values(|g: Grid| cells(g))
}

/// The pieces of `line` between the separators that hold at least one character.
pub open spec fn words(line: Seq<char>, sep: char) -> Seq<Seq<char>> {
    pieces(line, sep).filter(|w: Seq<char>| w.len() > 0)
}

/// The numbers to be drawn, which the line writes between commas.
pub open spec fn numbers_of(line: Seq<char>) -> Option<Seq<u8>> {
    u8s(words(line, ','), words(line, ',').len() as int)
}

/// Reads the numbers to be drawn; `None` where a piece between commas writes no number.
pub fn try_parse_numbers(line: &str) -> (r: Option<Vec<u8>>)
    ensures
        r is Some == numbers_of(line@) is Some,
        r matches Some(v) ==> Some(v@) == numbers_of(line@),
{
    let parts = non_empty(split(line, ','));
    parse_u8s(&parts)
}

/// Reads the numbers to be drawn.
pub fn parse_numbers(line: &str) -> (r: Vec<u8>)
    requires
        numbers_of(line@) is Some,
    ensures
        Some(r@) == numbers_of(line@),
{
    try_parse_numbers(line).unwrap()
}

/// The row of a board that a line writes: five numbers between blanks.
pub open spec fn row_of(line: Seq<char>) -> Option<Seq<u8>> {
    match u8s(words(line, ' '), words(line, ' ').len() as int) {
        Some(v) => if v.len() == 5 {
            Some(v)
        } else {
            None
        },
        None => None,
    }
}

/// The rows that the first `n` lines write; `None` where one of them writes none.
pub open spec fn board_rows(lines: Seq<Seq<char>>, n: int) -> Option<Seq<Seq<u8>>>
    decreases n,
{
    if n <= 0 {
        Some(Seq::empty())
    } else {
        match (board_rows(lines, n - 1), row_of(lines[n - 1])) {
            (Some(read), Some(row)) => Some(read.push(row)),
            _ => None,
        }
    }
}

/// Once a line writes no row, no longer list of lines has its rows.
pub proof fn lemma_board_rows_fail(lines: Seq<Seq<char>>, n: int, m: int)
    requires
        n <= m,
        board_rows(lines, n) is None,
    ensures
        board_rows(lines, m) is None,
    decreases m - n,
{
    if n < m {
        lemma_board_rows_fail(lines, n, m - 1);
    }
}

/// The board that a block of text writes: five lines that are not empty, a row each.
pub open spec fn board_of(block: Seq<char>) -> Option<Seq<Seq<u8>>> {
    if rows(block).len() == 5 {
        board_rows(rows(block), 5)
    } else {
        None
    }
}

/// Reads a board; `None` where the text does not write five rows of five numbers.
pub fn try_parse_grid(grid: &str) -> (r: Option<Grid>)
    ensures
        r is Some == board_of(grid@) is Some,
        r matches Some(g) ==> Some(cells(g)) == board_of(grid@),
{
    let lines = rows_of(grid);
    if lines.len() != 5 {
        return None;
    }
    let mut out: Grid = [[0u8; 5]; 5];
    let mut l: usize = 0;
    while l < 5
        invariant
            0 <= l <= 5,
            lines.len() == 5,
            views(lines@) == rows(grid@),
            board_rows(rows(grid@), l as int) is Some,
            board_rows(rows(grid@), l as int)->0.len() == l,
            forall|i: int| 0 <= i < l ==> (#[trigger] out@[i])@ == board_rows(rows(grid@), l as int)->0[i],
        decreases 5 - l,
    {
        assert(views(lines@)[l as int] == lines@[l as int]@);
        let parts = non_empty(split(lines[l], ' '));
        let row = match parse_u8s(&parts) {
            Some(v) => v,
            None => {
                proof {
                    lemma_board_rows_fail(rows(grid@), l + 1, 5);
                }
                return None;
            },
        };
        if row.len() != 5 {
            proof {
                lemma_board_rows_fail(rows(grid@), l + 1, 5);
            }
            return None;
        }
        out[l] = [row[0], row[1], row[2], row[3], row[4]];
        assert(out@[l as int]@ =~= row@);
        l += 1;
    }
    assert(cells(out) =~= board_rows(rows(grid@), 5)->0);
    Some(out)
}

/// Reads a board.
pub fn parse_grid(grid: &str) -> (r: Grid)
    requires
        board_of(grid@) is Some,
    ensures
        Some(cells(r)) == board_of(grid@),
{
    try_parse_grid(grid).unwrap()
}

/// What parts the drawn numbers from the boards and one board from the next: an empty
/// line.
pub open spec fn gap() -> Seq<char> {
    seq!['\n', '\n']
}

/// The boards that the first `n` blocks write; `None` where one of them writes none.
pub open spec fn boards(parts: Seq<Seq<char>>, n: int) -> Option<Seq<Seq<Seq<u8>>>>
    decreases n,
{
    if n <= 0 {
        Some(Seq::empty())
    } else {
        match (boards(parts, n - 1), board_of(parts[n - 1])) {
            (Some(read), Some(b)) => Some(read.push(b)),
            _ => None,
        }
    }
}

/// Once a block writes no board, no longer list of blocks has its boards.
pub proof fn lemma_boards_fail(parts: Seq<Seq<char>>, n: int, m: int)
    requires
        n <= m,
        boards(parts, n) is None,
    ensures
        boards(parts, m) is None,
    decreases m - n,
{
    if n < m {
        lemma_boards_fail(parts, n, m - 1);
    }
}

/// The blocks after the first that hold at least one character.
pub open spec fn board_blocks(input: Seq<char>) -> Seq<Seq<char>> {
    blocks(input, gap()).skip(1).filter(|b: Seq<char>| b.len() > 0)
}

/// The game that the input writes: the numbers to be drawn in its first block, and a board
/// in each block after it that is not empty.
pub open spec fn input_of(input: Seq<char>) -> Option<(Seq<u8>, Seq<Seq<Seq<u8>>>)> {
    match (
        numbers_of(blocks(input, gap())[0]),
        boards(board_blocks(input), board_blocks(input).len() as int),
    ) {
        (Some(numbers), Some(all)) => Some((numbers, all)),
        _ => None,
    }
}

/// Reads the game; `None` where the numbers or a board cannot be read.
pub fn try_parse_input(input: &str) -> (r: Option<(Vec<u8>, Vec<Grid>)>)
    ensures
        r is Some == input_of(input@) is Some,
        r matches Some(p) ==> Some((p.0@, all_cells(p.1@))) == input_of(input@),
{
    proof {
        reveal_strlit("\n\n");
        assert("\n\n"@ =~= gap());
        lemma_blocks_not_empty(input@, gap(), 0);
    }
    let parts = split_by(input, "\n\n");
    assert(views(parts@)[0] == parts@[0]@);
    let numbers = match try_parse_numbers(parts[0]) {
        Some(v) => v,
        None => {
            return None;
        },
    };
    let mut rest: Vec<&str> = Vec::new();
    let mut k: usize = 1;
    while k < parts.len()
        invariant
            1 <= k <= parts.len(),
            views(rest@) == views(parts@).subrange(1, k as int),
        decreases parts.len() - k,
    {
        proof {
            assert(views(rest@.push(parts@[k as int])) =~= views(rest@).push(parts@[k as int]@));
            assert(views(parts@).subrange(1, k + 1) =~= views(parts@).subrange(1, k as int).push(
                parts@[k as int]@,
            ));
        }
        rest.push(parts[k]);
        k += 1;
    }
    assert(views(parts@).subrange(1, parts@.len() as int) =~= views(parts@).skip(1));
    let filled = non_empty(rest);
    let mut grids: Vec<Grid> = Vec::new();
    let mut i: usize = 0;
    assert(all_cells(grids@) =~= Seq::<Seq<Seq<u8>>>::empty());
    while i < filled.len()
        invariant
            views(filled@) == board_blocks(input@),
            0 <= i <= filled.len(),
            Some(all_cells(grids@)) == boards(board_blocks(input@), i as int),
        decreases filled.len() - i,
    {
        assert(views(filled@)[i as int] == filled@[i as int]@);
        match try_parse_grid(filled[i]) {
            Some(g) => {
                assert(all_cells(grids@.push(g)) =~= all_cells(grids@).push(cells(g)));
                grids.push(g);
            },
            None => {
                proof {
                    lemma_boards_fail(
                        board_blocks(input@),
                        i + 1,
                        board_blocks(input@).len() as int,
                    );
                }
                return None;
            },
        }
        i += 1;
    }
    Some((numbers, grids))
}

/// Reads the game.
pub fn parse_input(input: &str) -> (r: (Vec<u8>, Vec<Grid>))
    requires
        input_of(input@) is Some,
    ensures
        Some((r.0@, all_cells(r.1@))) == input_of(input@),
{
    try_parse_input(input).unwrap()
}

/// Whether every number of row `l` is marked.
pub open spec fn row_done(board: Seq<Seq<u8>>, l: int) -> bool {
    board[l][0] == 0 && board[l][1] == 0 && board[l][2] == 0 && board[l][3] == 0 && board[l][4]
        == 0
}

/// Whether every number of column `l` is marked.
pub open spec fn column_done(board: Seq<Seq<u8>>, l: int) -> bool {
    board[0][l] == 0 && board[1][l] == 0 && board[2][l] == 0 && board[3][l] == 0 && board[4][l]
        == 0
}

/// Whether row `l` or column `l` is marked throughout.
pub open spec fn line_done(board: Seq<Seq<u8>>, l: int) -> bool {
    row_done(board, l) || column_done(board, l)
}

/// Whether a row or a column of the board is marked throughout.
pub open spec fn wins(board: Seq<Seq<u8>>) -> bool {
    line_done(board, 0) || line_done(board, 1) || line_done(board, 2) || line_done(board, 3)
        || line_done(board, 4)
}

/// Tells whether a row or a column of the board is marked throughout.
pub fn is_winning(grid: &Grid) -> (r: bool)
    ensures
        r == wins(cells(*grid)),
{
    let mut l: usize = 0;
    while l < 5
        invariant
            0 <= l <= 5,
            forall|k: int| 0 <= k < l ==> !line_done(cells(*grid), k),
        decreases 5 - l,
    {
        let row_wins = grid[l][0] == 0 && grid[l][1] == 0 && grid[l][2] == 0 && grid[l][3] == 0
            && grid[l][4] == 0;
        let col_win = grid[0][l] == 0 && grid[1][l] == 0 && grid[2][l] == 0 && grid[3][l] == 0
            && grid[4][l] == 0;
        assert(row_wins == row_done(cells(*grid), l as int));
        assert(col_win == column_done(cells(*grid), l as int));
        if row_wins || col_win {
            return true;
        }
        l += 1;
    }
    false
}

/// The numbers of row `l` added up.
pub open spec fn row_total(board: Seq<Seq<u8>>, l: int) -> int {
    board[l][0] + board[l][1] + board[l][2] + board[l][3] + board[l][4]
}

/// All numbers of the board added up; the marked ones count nothing.
pub open spec fn total(board: Seq<Seq<u8>>) -> int {
    row_total(board, 0) + row_total(board, 1) + row_total(board, 2) + row_total(board, 3)
        + row_total(board, 4)
}

/// Adds up the numbers of row `l`.
fn row_sum(grid: &Grid, l: usize) -> (r: u32)
    requires
        l < 5,
    ensures
        r == row_total(cells(*grid), l as int),
        r <= 1275,
{
    grid[l][0] as u32 + grid[l][1] as u32 + grid[l][2] as u32 + grid[l][3] as u32
        + grid[l][4] as u32
}

/// Adds up all numbers of the board.
fn sum(grid: &Grid) -> (r: u32)
    ensures
        r == total(cells(*grid)),
        r <= 6375,
{
    row_sum(grid, 0) + row_sum(grid, 1) + row_sum(grid, 2) + row_sum(grid, 3) + row_sum(grid, 4)
}

/// The score of a board: `number` times the sum of what is not marked.
pub fn get_grid_score(grid: &Grid, number: u32) -> (r: u32)
    requires
        number * total(cells(*grid)) <= u32::MAX,
    ensures
        r == number * total(cells(*grid)),
{
    number * sum(grid)
}

/// The board after the first `n` numbers have been drawn. With `hold`, a board that has won
/// is marked no further.
pub open spec fn state(board: Seq<Seq<u8>>, numbers: Seq<u8>, n: int, hold: bool) -> Seq<Seq<u8>>
    decreases n,
{
    if n <= 0 {
        board
    } else {
        let before = state(board, numbers, n - 1, hold);
        if hold && wins(before) {
            before
        } else {
            marked(before, numbers[n - 1])
        }
    }
}

/// Whether board `j` wins once number `i` is marked on it, every number being marked on
/// every board.
pub open spec fn won(numbers: Seq<u8>, all: Seq<Seq<Seq<u8>>>, i: int, j: int) -> bool {
    wins(state(all[j], numbers, i + 1, false))
}

/// The first board from `j` on that wins with number `i`.
pub open spec fn first_in_round(numbers: Seq<u8>, all: Seq<Seq<Seq<u8>>>, i: int, j: int) -> Option<
    int,
>
    decreases all.len() - j,
{
    if j < 0 || j >= all.len() {
        None
    } else if won(numbers, all, i, j) {
        Some(j)
    } else {
        first_in_round(numbers, all, i, j + 1)
    }
}

/// The first number from `i` on with which a board wins, and the first board that wins
/// with it.
pub open spec fn first_win(numbers: Seq<u8>, all: Seq<Seq<Seq<u8>>>, i: int) -> Option<(int, int)>
    decreases numbers.len() - i,
{
    if i < 0 || i >= numbers.len() {
        None
    } else {
        match first_in_round(numbers, all, i, 0) {
            Some(j) => Some((i, j)),
            None => first_win(numbers, all, i + 1),
        }
    }
}

/// Whether board `j` wins with number `i` and had not won before.
pub open spec fn newly(numbers: Seq<u8>, all: Seq<Seq<Seq<u8>>>, i: int, j: int) -> bool {
    !wins(state(all[j], numbers, i, true)) && wins(state(all[j], numbers, i + 1, true))
}

/// The last board before `j` that wins with number `i` and had not won before.
pub open spec fn last_in_round(numbers: Seq<u8>, all: Seq<Seq<Seq<u8>>>, i: int, j: int) -> Option<
    int,
>
    decreases j,
{
    if j <= 0 || j > all.len() {
        None
    } else if newly(numbers, all, i, j - 1) {
        Some(j - 1)
    } else {
        last_in_round(numbers, all, i, j - 1)
    }
}

/// The last number before `i` with which a board wins that had not won before, and the last
/// such board.
pub open spec fn last_win(numbers: Seq<u8>, all: Seq<Seq<Seq<u8>>>, i: int) -> Option<(int, int)>
    decreases i,
{
    if i <= 0 || i > numbers.len() {
        None
    } else {
        match last_in_round(numbers, all, i - 1, all.len() as int) {
            Some(j) => Some((i - 1, j)),
            None => last_win(numbers, all, i - 1),
        }
    }
}

/// The winning number and board: the first to win, or the last.
pub open spec fn winner(numbers: Seq<u8>, all: Seq<Seq<Seq<u8>>>, last: bool) -> Option<
    (int, int),
> {
    if last {
        last_win(numbers, all, numbers.len() as int)
    } else {
        first_win(numbers, all, 0)
    }
}

/// Whether `found` is the winning number with the winning board as it stands when it wins.
pub open spec fn is_winner(
    found: Option<(u8, Grid)>,
    at: Option<(int, int)>,
    numbers: Seq<u8>,
    all: Seq<Seq<Seq<u8>>>,
    last: bool,
) -> bool {
    match at {
        Some(p) => found matches Some(w) && w.0 == numbers[p.0] && cells(w.1) == state(
            all[p.1],
            numbers,
            p.0 + 1,
            last,
        ),
        None => found is None,
    }
}

/// Draws the numbers in turn, marking each on every board in turn, until a board wins.
pub fn first_winner(numbers: &Vec<u8>, grids: Vec<Grid>) -> (r: Option<(u8, Grid)>)
    ensures
        is_winner(r, winner(numbers@, all_cells(grids@), false), numbers@, all_cells(grids@), false),
{
    let ghost all = all_cells(grids@);
    let mut table = grids;
    let mut i: usize = 0;
    while i < numbers.len()
        invariant
            0 <= i <= numbers.len(),
            all == all_cells(grids@),
            table@.len() == all.len(),
            forall|j: int|
                0 <= j < all.len() ==> cells(#[trigger] table@[j]) == state(
                    all[j],
                    numbers@,
                    i as int,
                    false,
                ),
            first_win(numbers@, all, 0) == first_win(numbers@, all, i as int),
        decreases numbers.len() - i,
    {
        let n = numbers[i];
        let mut j: usize = 0;
        while j < table.len()
            invariant
                0 <= i < numbers.len(),
                n == numbers@[i as int],
                0 <= j <= table.len(),
                all == all_cells(grids@),
            table@.len() == all.len(),
                forall|k: int|
                    0 <= k < j ==> cells(#[trigger] table@[k]) == state(
                        all[k],
                        numbers@,
                        i + 1,
                        false,
                    ),
                forall|k: int|
                    j <= k < all.len() ==> cells(#[trigger] table@[k]) == state(
                        all[k],
                        numbers@,
                        i as int,
                        false,
                    ),
                first_in_round(numbers@, all, i as int, 0) == first_in_round(
                    numbers@,
                    all,
                    i as int,
                    j as int,
                ),
                first_win(numbers@, all, 0) == first_win(numbers@, all, i as int),
            decreases table.len() - j,
        {
            let mut grid = table[j];
            replace_number(&mut grid, n);
            if is_winning(&grid) {
                return Some((n, grid));
            }
            table.set(j, grid);
            j += 1;
        }
        i += 1;
    }
    None
}

/// Draws all numbers in turn, marking each on every board that has not won yet, and keeps
/// the board that won last.
pub fn last_winner(numbers: &Vec<u8>, grids: Vec<Grid>) -> (r: Option<(u8, Grid)>)
    ensures
        is_winner(r, winner(numbers@, all_cells(grids@), true), numbers@, all_cells(grids@), true),
{
    let ghost all = all_cells(grids@);
    let mut table = grids;
    let mut best: Option<(u8, Grid)> = None;
    let mut i: usize = 0;
    while i < numbers.len()
        invariant
            0 <= i <= numbers.len(),
            all == all_cells(grids@),
            table@.len() == all.len(),
            forall|j: int|
                0 <= j < all.len() ==> cells(#[trigger] table@[j]) == state(
                    all[j],
                    numbers@,
                    i as int,
                    true,
                ),
            is_winner(best, last_win(numbers@, all, i as int), numbers@, all, true),
        decreases numbers.len() - i,
    {
        let n = numbers[i];
        let mut j: usize = 0;
        while j < table.len()
            invariant
                0 <= i < numbers.len(),
                n == numbers@[i as int],
                0 <= j <= table.len(),
                all == all_cells(grids@),
            table@.len() == all.len(),
                forall|k: int|
                    0 <= k < j ==> cells(#[trigger] table@[k]) == state(
                        all[k],
                        numbers@,
                        i + 1,
                        true,
                    ),
                forall|k: int|
                    j <= k < all.len() ==> cells(#[trigger] table@[k]) == state(
                        all[k],
                        numbers@,
                        i as int,
                        true,
                    ),
                is_winner(
                    best,
                    match last_in_round(numbers@, all, i as int, j as int) {
                        Some(k) => Some((i as int, k)),
                        None => last_win(numbers@, all, i as int),
                    },
                    numbers@,
                    all,
                    true,
                ),
            decreases table.len() - j,
        {
            let mut grid = table[j];
            if !is_winning(&grid) {
                replace_number(&mut grid, n);
                if is_winning(&grid) {
                    best = Some((n, grid));
                }
                table.set(j, grid);
            }
            j += 1;
        }
        i += 1;
    }
    best
}

/// The score of the winning board: the winning number times the sum of what is not marked
/// on the board when it wins; `None` where the game cannot be read or no board wins.
pub open spec fn answer(input: Seq<char>, last: bool) -> Option<int> {
    match input_of(input) {
        Some(game) => match winner(game.0, game.1, last) {
            Some(at) => Some(game.0[at.0] * total(state(game.1[at.1], game.0, at.0 + 1, last))),
            None => None,
        },
        None => None,
    }
}

/// Plays the game that the input writes and scores the winning board.
fn play(input: &str, last: bool) -> (r: Option<String>)
    ensures
        r is Some == answer(input@, last) is Some,
        r matches Some(t) ==> t@ == decimal(answer(input@, last)->0),
{
    let (numbers, grids) = match try_parse_input(input) {
        Some(game) => game,
        None => {
            return None;
        },
    };
    let found = if last {
        last_winner(&numbers, grids)
    } else {
        first_winner(&numbers, grids)
    };
    match found {
        Some((n, grid)) => {
            assert(n * total(cells(grid)) <= 255 * 6375) by (nonlinear_arith)
                requires
                    0 <= n <= 255,
                    0 <= total(cells(grid)) <= 6375,
            ;
            Some(format_u64(get_grid_score(&grid, n as u32) as u64))
        },
        None => None,
    }
}

/// The score of the board that wins first, if the game can be read and a board wins.
pub fn try_puzzle_1(input: &str) -> (r: Option<String>)
    ensures
        r is Some == answer(input@, false) is Some,
        r matches Some(t) ==> t@ == decimal(answer(input@, false)->0),
{
    play(input, false)
}

/// The score of the board that wins first.
pub fn puzzle_1(input: &str) -> (r: String)
    requires
        answer(input@, false) is Some,
    ensures
        r@ == decimal(answer(input@, false)->0),
{
    try_puzzle_1(input).unwrap()
}

/// The score of the board that wins last, if the game can be read and a board wins.
pub fn try_puzzle_2(input: &str) -> (r: Option<String>)
    ensures
        r is Some == answer(input@, true) is Some,
        r matches Some(t) ==> t@ == decimal(answer(input@, true)->0),
{
    play(input, true)
}

/// The score of the board that wins last.
pub fn puzzle_2(input: &str) -> (r: String)
    requires
        answer(input@, true) is Some,
    ensures
        r@ == decimal(answer(input@, true)->0),
{
    try_puzzle_2(input).unwrap()
}

} // verus!
