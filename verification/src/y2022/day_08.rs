//! Tree houses: which trees of a grid can be seen from outside, and how far one sees from a
//! tree.

use crate::number::{decimal, format_u64};
use crate::text::{chars, rows, rows_of, views};
use vstd::prelude::*;

verus! {

/// The heights of the trees, row by row.
pub type TreeGrid = Vec<Vec<u8>>;

/// A tree of the grid by its row and its column.
#[derive(Clone, Copy, Debug)]
pub struct Pos {
    pub lin: usize,
    pub col: usize,
}

/// A side of the grid.
#[derive(Clone, Copy, Debug)]
pub enum Side {
    North,
    West,
    South,
    East,
}

/// The height that the digit `c` writes, or `None` for another character.
pub open spec fn height_of(c: char) -> Option<u8> {
    if '0' <= c <= '9' {
        Some((c as int - '0' as int) as u8)
    } else {
        None
    }
}

/// The heights that the first `n` characters of a line write; `None` when one is no digit.
pub open spec fn heights(line: Seq<char>, n: int) -> Option<Seq<u8>>
    decreases n,
{
    if n <= 0 {
        Some(Seq::empty())
    } else {
        match (heights(line, n - 1), height_of(line[n - 1])) {
            (Some(s), Some(h)) => Some(s.push(h)),
            _ => None,
        }
    }
}

/// The rows of heights that the first `n` lines write; `None` when one holds another character
/// than a digit.
pub open spec fn grid_rows(lines: Seq<Seq<char>>, n: int) -> Option<Seq<Seq<u8>>>
    decreases n,
{
    if n <= 0 {
        Some(Seq::empty())
    } else {
        match (grid_rows(lines, n - 1), heights(lines[n - 1], lines[n - 1].len() as int)) {
            (Some(g), Some(row)) => Some(g.push(row)),
            _ => None,
        }
    }
}

/// The grid that the non-empty lines of `input` write.
pub open spec fn grid_of(input: Seq<char>) -> Option<Seq<Seq<u8>>> {
    grid_rows(rows(input), rows(input).len() as int)
}

/// Whether the grid has as many columns in each row as it has rows.
pub open spec fn square(grid: Seq<Seq<u8>>) -> bool {
    forall|i: int| 0 <= i < grid.len() ==> (#[trigger] grid[i]).len() == grid.len()
}

/// The rows of a grid as sequences.
pub open spec fn plain(forest: Seq<Vec<u8>>) -> Seq<Seq<u8>> {
    forest.map_values(|row: Vec<u8>| row@)
}

fn digit_height(c: char) -> (r: Option<u8>)
    ensures
        r == height_of(c),
{
    if '0' <= c && c <= '9' {
        Some((c as u32 - '0' as u32) as u8)
    } else {
        None
    }
}

fn read_row(line: &str) -> (r: Option<Vec<u8>>)
    ensures
        r is Some == heights(line@, line@.len() as int) is Some,
        r is Some ==> r->0@ == heights(line@, line@.len() as int)->0,
{
    let v = chars(line);
    let mut out: Option<Vec<u8>> = Some(Vec::new());
    let mut i: usize = 0;
    while i < v.len()
        invariant
            v@ == line@,
            0 <= i <= v.len(),
            out is Some == heights(line@, i as int) is Some,
            out is Some ==> out->0@ == heights(line@, i as int)->0,
        decreases v.len() - i,
    {
        out = match (out, digit_height(v[i])) {
            (Some(mut row), Some(h)) => {
                row.push(h);
                Some(row)
            },
            _ => None,
        };
        i += 1;
    }
    out
}

/// Reads the grid, if the lines hold digits only.
pub fn read_grid(input: &str) -> (r: Option<TreeGrid>)
    ensures
        r is Some == grid_of(input@) is Some,
        r is Some ==> plain(r->0@) == grid_of(input@)->0,
{
    let lines = rows_of(input);
    let mut out: Option<Vec<Vec<u8>>> = Some(Vec::new());
    let mut i: usize = 0;
    assert(plain(Seq::<Vec<u8>>::empty()) =~= Seq::<Seq<u8>>::empty());
    while i < lines.len()
        invariant
            views(lines@) == rows(input@),
            0 <= i <= lines.len(),
            out is Some == grid_rows(rows(input@), i as int) is Some,
            out is Some ==> plain(out->0@) == grid_rows(rows(input@), i as int)->0,
        decreases lines.len() - i,
    {
        assert(views(lines@)[i as int] == lines@[i as int]@);
        out = match (out, read_row(lines[i])) {
            (Some(mut grid), Some(row)) => {
                assert(plain(grid@.push(row)) =~= plain(grid@).push(row@));
                grid.push(row);
                Some(grid)
            },
            _ => None,
        };
        i += 1;
    }
    out
}

/// Reads the grid and refuses one that is not square.
pub fn load_input(input: &str) -> (r: Result<TreeGrid, ()>)
    requires
        grid_of(input@) is Some,
    ensures
        r is Ok == square(grid_of(input@)->0),
        r is Ok ==> plain(r->Ok_0@) == grid_of(input@)->0,
{
    let output = read_grid(input).unwrap();
    let ghost grid = plain(output@);
    let mut i: usize = 0;
    while i < output.len()
        invariant
            grid == plain(output@),
            grid == grid_of(input@)->0,
            0 <= i <= output.len(),
            forall|j: int| 0 <= j < i ==> (#[trigger] grid[j]).len() == grid.len(),
        decreases output.len() - i,
    {
        if output[i].len() != output.len() {
            assert(grid[i as int].len() != grid.len());
            return Err(());
        }
        i += 1;
    }
    Ok(output)
}

/// Whether the grid has a row and all its rows are as long as the first.
pub open spec fn even(forest: Seq<Seq<u8>>) -> bool {
    &&& forest.len() > 0
    &&& forall|i: int| 0 <= i < forest.len() ==> (#[trigger] forest[i]).len() == forest[0].len()
}

/// Whether `pos` is a tree of the grid.
pub open spec fn inside(forest: Seq<Seq<u8>>, pos: Pos) -> bool {
    pos.lin < forest.len() && pos.col < forest[0].len()
}

/// How many trees stand between `pos` and the edge on the given side.
pub open spec fn span(forest: Seq<Seq<u8>>, side: Side, pos: Pos) -> int {
    match side {
        Side::North => pos.lin as int,
        Side::West => pos.col as int,
        Side::South => forest.len() - 1 - pos.lin,
        Side::East => forest[0].len() - 1 - pos.col,
    }
}

/// The height of the tree that stands `d` steps from `pos` towards the given side.
pub open spec fn tree_at(forest: Seq<Seq<u8>>, side: Side, pos: Pos, d: int) -> u8 {
    match side {
        Side::North => forest[pos.lin - d][pos.col as int],
        Side::West => forest[pos.lin as int][pos.col - d],
        Side::South => forest[pos.lin + d][pos.col as int],
        Side::East => forest[pos.lin as int][pos.col + d],
    }
}

/// Whether the trees up to `n` steps from `pos` towards the given side are all lower than the
/// tree at `pos`.
pub open spec fn clear(forest: Seq<Seq<u8>>, side: Side, pos: Pos, n: int) -> bool {
    forall|d: int|
        1 <= d <= n ==> #[trigger] tree_at(forest, side, pos, d) < forest[pos.lin as int][pos.col as int]
}

/// Whether the tree at `pos` can be seen from the given side: all trees between it and the edge
/// are lower.
pub open spec fn visible_from(forest: Seq<Seq<u8>>, side: Side, pos: Pos) -> bool {
    clear(forest, side, pos, span(forest, side, pos))
}

/// How many trees one sees from `pos` towards the given side, looking at the trees from step
/// `d` on: all up to the first that is not lower, that one included.
pub open spec fn sight_from(forest: Seq<Seq<u8>>, side: Side, pos: Pos, d: int) -> int
    decreases span(forest, side, pos) + 1 - d,
{
    if d > span(forest, side, pos) {
        span(forest, side, pos)
    } else if tree_at(forest, side, pos, d) >= forest[pos.lin as int][pos.col as int] {
        d
    } else {
        sight_from(forest, side, pos, d + 1)
    }
}

/// How many trees one sees from `pos` towards the given side.
pub open spec fn sight(forest: Seq<Seq<u8>>, side: Side, pos: Pos) -> int {
    sight_from(forest, side, pos, 1)
}

/// One sees the trees up to the first that is not lower, or all of them when every tree is
/// lower.
pub proof fn lemma_sight(forest: Seq<Seq<u8>>, side: Side, pos: Pos, d: int)
    requires
        1 <= d <= span(forest, side, pos) + 1,
        clear(forest, side, pos, d - 1),
    ensures
        ({
            let v = sight_from(forest, side, pos, d);
            &&& d - 1 <= v <= span(forest, side, pos)
            &&& clear(forest, side, pos, v - 1)
            &&& (v == span(forest, side, pos) && clear(forest, side, pos, v)) || (d <= v && tree_at(
                forest,
                side,
                pos,
                v,
            ) >= forest[pos.lin as int][pos.col as int])
        }),
    decreases span(forest, side, pos) + 1 - d,
{
    if d <= span(forest, side, pos) && tree_at(forest, side, pos, d) < forest[pos.lin as int][pos.col as int] {
        lemma_sight(forest, side, pos, d + 1);
    }
}

fn reach(forest: &TreeGrid, side: Side, pos: Pos) -> (r: usize)
    requires
        even(plain(forest@)),
        inside(plain(forest@), pos),
    ensures
        r == span(plain(forest@), side, pos),
        r < usize::MAX,
{
    assert(plain(forest@).len() == forest@.len());
    assert(forall|i: int| 0 <= i < forest@.len() ==> #[trigger] plain(forest@)[i] == forest@[i]@);
    let rows = forest.len();
    let columns = forest[0].len();
    match side {
        Side::North => pos.lin,
        Side::West => pos.col,
        Side::South => forest.len() - 1 - pos.lin,
        Side::East => forest[0].len() - 1 - pos.col,
    }
}

fn tree(forest: &TreeGrid, side: Side, pos: Pos, d: usize) -> (r: u8)
    requires
        even(plain(forest@)),
        inside(plain(forest@), pos),
        1 <= d <= span(plain(forest@), side, pos),
    ensures
        r == tree_at(plain(forest@), side, pos, d as int),
{
    assert(plain(forest@).len() == forest@.len());
    assert(forall|i: int| 0 <= i < forest@.len() ==> #[trigger] plain(forest@)[i] == forest@[i]@);
    let rows = forest.len();
    let columns = forest[0].len();
    match side {
        Side::North => {
            assert(plain(forest@)[pos.lin - d].len() == plain(forest@)[0].len());
            forest[pos.lin - d][pos.col]
        },
        Side::West => {
            assert(plain(forest@)[pos.lin as int].len() == plain(forest@)[0].len());
            forest[pos.lin][pos.col - d]
        },
        Side::South => {
            assert(d <= plain(forest@).len() - 1 - pos.lin);
            assert(plain(forest@)[pos.lin + d].len() == plain(forest@)[0].len());
            forest[pos.lin + d][pos.col]
        },
        Side::East => {
            assert(d <= plain(forest@)[0].len() - 1 - pos.col);
            assert(plain(forest@)[pos.lin as int].len() == plain(forest@)[0].len());
            forest[pos.lin][pos.col + d]
        },
    }
}

/// Tells whether the tree at `pos` can be seen from the given side.
pub fn is_visible_from_side(forest: &TreeGrid, side: Side, pos: Pos) -> (r: bool)
    requires
        even(plain(forest@)),
        inside(plain(forest@), pos),
    ensures
        r == visible_from(plain(forest@), side, pos),
{
    assert(plain(forest@).len() == forest@.len());
    assert(forall|i: int| 0 <= i < forest@.len() ==> #[trigger] plain(forest@)[i] == forest@[i]@);
    let n = reach(forest, side, pos);
    assert(plain(forest@)[pos.lin as int].len() == plain(forest@)[0].len());
    let tree_height = forest[pos.lin][pos.col];
    let mut d: usize = 1;
    while d <= n
        invariant
            even(plain(forest@)),
            inside(plain(forest@), pos),
            n == span(plain(forest@), side, pos),
            n < usize::MAX,
            tree_height == plain(forest@)[pos.lin as int][pos.col as int],
            1 <= d <= n + 1,
            clear(plain(forest@), side, pos, d - 1),
        decreases n + 1 - d,
    {
        if tree(forest, side, pos, d) >= tree_height {
            return false;
        }
        d += 1;
    }
    true
}

/// Tells how many trees one sees from `pos` towards the given side.
pub fn get_visibility_length(forest: &TreeGrid, side: Side, pos: Pos) -> (r: usize)
    requires
        even(plain(forest@)),
        inside(plain(forest@), pos),
    ensures
        r == sight(plain(forest@), side, pos),
{
    assert(plain(forest@).len() == forest@.len());
    assert(forall|i: int| 0 <= i < forest@.len() ==> #[trigger] plain(forest@)[i] == forest@[i]@);
    let n = reach(forest, side, pos);
    assert(plain(forest@)[pos.lin as int].len() == plain(forest@)[0].len());
    let tree_height = forest[pos.lin][pos.col];
    let mut d: usize = 1;
    while d <= n
        invariant
            even(plain(forest@)),
            inside(plain(forest@), pos),
            n == span(plain(forest@), side, pos),
            n < usize::MAX,
            tree_height == plain(forest@)[pos.lin as int][pos.col as int],
            1 <= d <= n + 1,
            sight(plain(forest@), side, pos) == sight_from(plain(forest@), side, pos, d as int),
        decreases n + 1 - d,
    {
        if tree(forest, side, pos, d) >= tree_height {
            return d;
        }
        d += 1;
    }
    n
}

/// Whether the tree at `pos` can be seen from one of the four sides.
pub open spec fn visible(forest: Seq<Seq<u8>>, pos: Pos) -> bool {
    visible_from(forest, Side::North, pos) || visible_from(forest, Side::West, pos)
        || visible_from(forest, Side::South, pos) || visible_from(forest, Side::East, pos)
}

/// Tells whether the tree at `pos` can be seen from outside the grid.
pub fn is_tree_visible(forest: &TreeGrid, pos: Pos) -> (r: bool)
    requires
        even(plain(forest@)),
        inside(plain(forest@), pos),
    ensures
        r == visible(plain(forest@), pos),
{
    is_visible_from_side(forest, Side::North, pos) || is_visible_from_side(forest, Side::West, pos)
        || is_visible_from_side(forest, Side::South, pos) || is_visible_from_side(
        forest,
        Side::East,
        pos,
    )
}

/// For each tree whether it can be seen from outside the grid.
pub fn get_visible_trees(input: &TreeGrid) -> (r: Vec<Vec<bool>>)
    requires
        even(plain(input@)),
    ensures
        r.len() == input.len(),
        forall|i: int| 0 <= i < input.len() ==> (#[trigger] r[i]).len() == input[0].len(),
        forall|i: int, j: int|
            0 <= i < input.len() && 0 <= j < input[0].len() ==> #[trigger] r[i][j] == visible(
                plain(input@),
                Pos { lin: i as usize, col: j as usize },
            ),
{
    assert(plain(input@).len() == input@.len());
    assert(forall|i: int| 0 <= i < input@.len() ==> #[trigger] plain(input@)[i] == input@[i]@);
    let max_i = input.len();
    let max_j = input[0].len();
    let mut output: Vec<Vec<bool>> = Vec::new();
    let mut i: usize = 0;
    while i < max_i
        invariant
            even(plain(input@)),
            max_i == input.len(),
            max_j == input[0].len(),
            0 <= i <= max_i,
            output.len() == i,
            forall|a: int| 0 <= a < i ==> (#[trigger] output[a]).len() == max_j,
            forall|a: int, b: int|
                0 <= a < i && 0 <= b < max_j ==> #[trigger] output[a][b] == visible(
                    plain(input@),
                    Pos { lin: a as usize, col: b as usize },
                ),
        decreases max_i - i,
    {
        let mut row: Vec<bool> = Vec::new();
        let mut j: usize = 0;
        while j < max_j
            invariant
                even(plain(input@)),
                max_i == input.len(),
                max_j == input[0].len(),
                0 <= i < max_i,
                0 <= j <= max_j,
                row.len() == j,
                forall|b: int|
                    0 <= b < j ==> #[trigger] row[b] == visible(
                        plain(input@),
                        Pos { lin: i, col: b as usize },
                    ),
            decreases max_j - j,
        {
            row.push(is_tree_visible(input, Pos { lin: i, col: j }));
            j += 1;
        }
        let ghost before = output@;
        output.push(row);
        assert(forall|a: int| 0 <= a < i ==> output@[a] == before[a]);
        i += 1;
    }
    output
}

/// The product of the numbers of trees seen from `pos` towards the four sides.
pub open spec fn score(forest: Seq<Seq<u8>>, pos: Pos) -> int {
    sight(forest, Side::North, pos) * sight(forest, Side::West, pos) * sight(
        forest,
        Side::South,
        pos,
    ) * sight(forest, Side::East, pos)
}

/// Whether the score of every tree can be held.
pub open spec fn scores_fit(forest: Seq<Seq<u8>>) -> bool {
    forall|i: int, j: int|
        0 <= i < forest.len() && 0 <= j < forest[0].len() ==> 0 <= #[trigger] score(
            forest,
            Pos { lin: i as usize, col: j as usize },
        ) <= usize::MAX
}

fn try_score(forest: &TreeGrid, pos: Pos) -> (r: Option<usize>)
    requires
        even(plain(forest@)),
        inside(plain(forest@), pos),
    ensures
        r is Some == (score(plain(forest@), pos) <= usize::MAX),
        r is Some ==> r->0 == score(plain(forest@), pos),
        0 <= score(plain(forest@), pos),
{
    let north = get_visibility_length(forest, Side::North, pos);
    let west = get_visibility_length(forest, Side::West, pos);
    let south = get_visibility_length(forest, Side::South, pos);
    let east = get_visibility_length(forest, Side::East, pos);
    proof {
        assert(0 <= north * west) by (nonlinear_arith)
            requires
                0 <= north,
                0 <= west,
        ;
        assert(0 <= north * west * south) by (nonlinear_arith)
            requires
                0 <= north * west,
                0 <= south,
        ;
        assert(0 <= north * west * south * east) by (nonlinear_arith)
            requires
                0 <= north * west * south,
                0 <= east,
        ;
        assert(north * west <= north * west * south || south == 0) by (nonlinear_arith)
            requires
                0 <= north * west,
                0 <= south,
        ;
        assert(north * west * south <= north * west * south * east || east == 0)
            by (nonlinear_arith)
            requires
                0 <= north * west * south,
                0 <= east,
        ;
    }
    if south == 0 || east == 0 {
        assert(north * west * south * east == 0) by (nonlinear_arith)
            requires
                south == 0 || east == 0,
        ;
        return Some(0);
    }
    match north.checked_mul(west) {
        Some(a) => match a.checked_mul(south) {
            Some(b) => b.checked_mul(east),
            None => None,
        },
        None => None,
    }
}

/// For each tree the product of the numbers of trees seen towards the four sides.
pub fn get_visibility_scores(input: &TreeGrid) -> (r: Vec<Vec<usize>>)
    requires
        even(plain(input@)),
        scores_fit(plain(input@)),
    ensures
        r.len() == input.len(),
        forall|i: int| 0 <= i < input.len() ==> (#[trigger] r[i]).len() == input[0].len(),
        forall|i: int, j: int|
            0 <= i < input.len() && 0 <= j < input[0].len() ==> #[trigger] r[i][j] == score(
                plain(input@),
                Pos { lin: i as usize, col: j as usize },
            ),
{
    assert(plain(input@).len() == input@.len());
    assert(forall|i: int| 0 <= i < input@.len() ==> #[trigger] plain(input@)[i] == input@[i]@);
    let max_i = input.len();
    let max_j = input[0].len();
    let mut output: Vec<Vec<usize>> = Vec::new();
    let mut i: usize = 0;
    while i < max_i
        invariant
            even(plain(input@)),
            scores_fit(plain(input@)),
            max_i == input.len(),
            max_j == input[0].len(),
            0 <= i <= max_i,
            output.len() == i,
            forall|a: int| 0 <= a < i ==> (#[trigger] output[a]).len() == max_j,
            forall|a: int, b: int|
                0 <= a < i && 0 <= b < max_j ==> #[trigger] output[a][b] == score(
                    plain(input@),
                    Pos { lin: a as usize, col: b as usize },
                ),
        decreases max_i - i,
    {
        let mut row: Vec<usize> = Vec::new();
        let mut j: usize = 0;
        while j < max_j
            invariant
                even(plain(input@)),
                scores_fit(plain(input@)),
                max_i == input.len(),
                max_j == input[0].len(),
                0 <= i < max_i,
                0 <= j <= max_j,
                row.len() == j,
                forall|b: int|
                    0 <= b < j ==> #[trigger] row[b] == score(
                        plain(input@),
                        Pos { lin: i, col: b as usize },
                    ),
            decreases max_j - j,
        {
            let pos = Pos { lin: i, col: j };
            assert(0 <= score(plain(input@), Pos { lin: i as int as usize, col: j as int as usize })
                <= usize::MAX);
            row.push(try_score(input, pos).unwrap());
            j += 1;
        }
        let ghost before = output@;
        output.push(row);
        assert(forall|a: int| 0 <= a < i ==> output@[a] == before[a]);
        i += 1;
    }
    output
}

/// Whether the tree in row `i` and column `j` can be seen from outside the grid.
pub open spec fn visible_at(grid: Seq<Seq<u8>>, i: int, j: int) -> bool {
    visible(grid, Pos { lin: i as usize, col: j as usize })
}

/// The score of the tree in row `i` and column `j`.
pub open spec fn score_at(grid: Seq<Seq<u8>>, i: int, j: int) -> int {
    score(grid, Pos { lin: i as usize, col: j as usize })
}

/// How many of the first `j` trees of row `i` can be seen.
pub open spec fn seen_in_row(grid: Seq<Seq<u8>>, i: int, j: int) -> int
    decreases j,
{
    if j <= 0 {
        0
    } else {
        seen_in_row(grid, i, j - 1) + if visible_at(grid, i, j - 1) {
            1int
        } else {
            0int
        }
    }
}

/// How many trees of the first `i` rows can be seen; `None` when a sum of rows cannot be held.
pub open spec fn seen(grid: Seq<Seq<u8>>, i: int) -> Option<int>
    decreases i,
{
    if i <= 0 {
        Some(0)
    } else {
        match seen(grid, i - 1) {
            Some(t) if t + seen_in_row(grid, i - 1, grid[0].len() as int) <= usize::MAX => Some(
                t + seen_in_row(grid, i - 1, grid[0].len() as int),
            ),
            _ => None,
        }
    }
}

/// The grid that `input` writes, if it is square and has a tree.
pub open spec fn forest_of(input: Seq<char>) -> Option<Seq<Seq<u8>>> {
    match grid_of(input) {
        Some(grid) if square(grid) && grid.len() > 0 => Some(grid),
        _ => None,
    }
}

/// The number of trees that can be seen from outside the grid.
pub open spec fn answer_1(input: Seq<char>) -> Option<int> {
    match forest_of(input) {
        Some(grid) => seen(grid, grid.len() as int),
        None => None,
    }
}

/// Reads a grid that is square and has a tree.
fn read_forest(input: &str) -> (r: Option<TreeGrid>)
    ensures
        r is Some == forest_of(input@) is Some,
        r is Some ==> plain(r->0@) == forest_of(input@)->0 && even(plain(r->0@)),
{
    match read_grid(input) {
        Some(_) => match load_input(input) {
            Ok(grid) => {
                if grid.len() > 0 {
                    assert(plain(grid@).len() == grid@.len());
                    Some(grid)
                } else {
                    None
                }
            },
            Err(_) => None,
        },
        None => None,
    }
}

/// The number of trees that can be seen from outside the grid, if `input` writes a square grid.
pub fn try_puzzle_1(input: &str) -> (r: Option<String>)
    ensures
        r is Some == answer_1(input@) is Some,
        r is Some ==> r->0@ == decimal(answer_1(input@)->0),
{
    let parsed_input = match read_forest(input) {
        Some(grid) => grid,
        None => {
            return None;
        },
    };
    let ghost grid = plain(parsed_input@);
    let visible_trees = get_visible_trees(&parsed_input);
    assert(plain(parsed_input@).len() == parsed_input@.len());
    assert(plain(parsed_input@)[0] == parsed_input@[0]@);
    let mut total: Option<usize> = Some(0);
    let mut i: usize = 0;
    while i < visible_trees.len()
        invariant
            grid == plain(parsed_input@),
            grid.len() == parsed_input.len(),
            grid[0].len() == parsed_input[0].len(),
            visible_trees.len() == parsed_input.len(),
            forall|a: int|
                0 <= a < parsed_input.len() ==> (#[trigger] visible_trees[a]).len()
                    == parsed_input[0].len(),
            forall|a: int, b: int|
                0 <= a < parsed_input.len() && 0 <= b < parsed_input[0].len()
                    ==> #[trigger] visible_trees[a][b] == visible(
                    grid,
                    Pos { lin: a as usize, col: b as usize },
                ),
            0 <= i <= visible_trees.len(),
            total is Some == seen(grid, i as int) is Some,
            total is Some ==> total->0 == seen(grid, i as int)->0,
        decreases visible_trees.len() - i,
    {
        let trees = &visible_trees[i];
        let mut count: usize = 0;
        let mut j: usize = 0;
        while j < trees.len()
            invariant
                grid[0].len() == parsed_input[0].len(),
                0 <= i < parsed_input.len(),
                trees.len() == parsed_input[0].len(),
                *trees == visible_trees[i as int],
                forall|b: int|
                    0 <= b < parsed_input[0].len() ==> #[trigger] visible_trees[i as int][b]
                        == visible(grid, Pos { lin: i, col: b as usize }),
                0 <= j <= trees.len(),
                count == seen_in_row(grid, i as int, j as int),
                count <= j,
            decreases trees.len() - j,
        {
            assert(trees[j as int] == visible_trees[i as int][j as int]);
            if trees[j] {
                count += 1;
            }
            j += 1;
        }
        total = match total {
            Some(t) => t.checked_add(count),
            None => None,
        };
        i += 1;
    }
    match total {
        Some(t) => Some(format_u64(t as u64)),
        None => None,
    }
}

/// The number of trees that can be seen from outside the grid.
pub fn puzzle_1(input: &str) -> (r: String)
    requires
        answer_1(input@) is Some,
    ensures
        r@ == decimal(answer_1(input@)->0),
{
    try_puzzle_1(input).unwrap()
}

/// Whether `m` is the largest score of a tree of the grid.
pub open spec fn is_best(grid: Seq<Seq<u8>>, m: int) -> bool {
    &&& exists|i: int, j: int|
        0 <= i < grid.len() && 0 <= j < grid[0].len() && #[trigger] score_at(grid, i, j) == m
    &&& forall|i: int, j: int|
        0 <= i < grid.len() && 0 <= j < grid[0].len() ==> #[trigger] score_at(grid, i, j) <= m
}

/// The largest score of a tree of the grid.
pub open spec fn best(grid: Seq<Seq<u8>>) -> int {
    choose|m: int| is_best(grid, m)
}

/// The largest score of a tree, if `input` writes a square grid whose scores can be held.
pub open spec fn answer_2(input: Seq<char>) -> Option<int> {
    match forest_of(input) {
        Some(grid) if scores_fit(grid) => Some(best(grid)),
        _ => None,
    }
}

/// Tells whether the score of every tree can be held.
fn scores_hold(forest: &TreeGrid) -> (r: bool)
    requires
        even(plain(forest@)),
    ensures
        r == scores_fit(plain(forest@)),
{
    assert(plain(forest@).len() == forest@.len());
    assert(plain(forest@)[0] == forest@[0]@);
    let max_i = forest.len();
    let max_j = forest[0].len();
    let mut i: usize = 0;
    while i < max_i
        invariant
            even(plain(forest@)),
            max_i == plain(forest@).len(),
            max_j == plain(forest@)[0].len(),
            0 <= i <= max_i,
            forall|a: int, b: int|
                0 <= a < i && 0 <= b < max_j ==> 0 <= #[trigger] score(
                    plain(forest@),
                    Pos { lin: a as usize, col: b as usize },
                ) <= usize::MAX,
        decreases max_i - i,
    {
        let mut j: usize = 0;
        while j < max_j
            invariant
                even(plain(forest@)),
                max_i == plain(forest@).len(),
                max_j == plain(forest@)[0].len(),
                0 <= i < max_i,
                0 <= j <= max_j,
                forall|a: int, b: int|
                    0 <= a < i && 0 <= b < max_j ==> 0 <= #[trigger] score(
                        plain(forest@),
                        Pos { lin: a as usize, col: b as usize },
                    ) <= usize::MAX,
                forall|b: int|
                    0 <= b < j ==> 0 <= #[trigger] score(
                        plain(forest@),
                        Pos { lin: i, col: b as usize },
                    ) <= usize::MAX,
            decreases max_j - j,
        {
            if try_score(forest, Pos { lin: i, col: j }).is_none() {
                assert(score(plain(forest@), Pos { lin: i as int as usize, col: j as int as usize })
                    > usize::MAX);
                return false;
            }
            j += 1;
        }
        i += 1;
    }
    true
}

/// The largest score of a tree.
pub fn puzzle_2(input: &str) -> (r: String)
    requires
        answer_2(input@) is Some,
    ensures
        r@ == decimal(answer_2(input@)->0),
{
    let parsed_input = read_forest(input).unwrap();
    let ghost grid = plain(parsed_input@);
    assert(grid.len() == parsed_input@.len());
    assert(grid[0] == parsed_input@[0]@);
    let visibility_scores = get_visibility_scores(&parsed_input);
    let mut highest: usize = 0;
    let mut i: usize = 0;
    assert(visibility_scores[0][0] == score_at(grid, 0, 0));
    while i < visibility_scores.len()
        invariant
            grid == plain(parsed_input@),
            grid.len() == parsed_input.len(),
            grid.len() > 0,
            grid[0].len() == parsed_input[0].len(),
            grid[0].len() > 0,
            visibility_scores.len() == parsed_input.len(),
            forall|a: int|
                0 <= a < parsed_input.len() ==> (#[trigger] visibility_scores[a]).len()
                    == parsed_input[0].len(),
            forall|a: int, b: int|
                0 <= a < parsed_input.len() && 0 <= b < parsed_input[0].len()
                    ==> #[trigger] visibility_scores[a][b] == score(
                    grid,
                    Pos { lin: a as usize, col: b as usize },
                ),
            0 <= i <= visibility_scores.len(),
            forall|a: int, b: int|
                0 <= a < i && 0 <= b < grid[0].len() ==> #[trigger] score_at(grid, a, b)
                    <= highest,
            i == 0 ==> highest == 0,
            i > 0 ==> exists|a: int, b: int|
                0 <= a < grid.len() && 0 <= b < grid[0].len() && #[trigger] score_at(grid, a, b)
                    == highest,
        decreases visibility_scores.len() - i,
    {
        let v = &visibility_scores[i];
        let mut j: usize = 0;
        while j < v.len()
            invariant
                grid.len() == parsed_input.len(),
                grid[0].len() == parsed_input[0].len(),
                grid[0].len() > 0,
                0 <= i < parsed_input.len(),
                v.len() == parsed_input[0].len(),
                *v == visibility_scores[i as int],
                forall|b: int|
                    0 <= b < parsed_input[0].len() ==> #[trigger] visibility_scores[i as int][b]
                        == score(grid, Pos { lin: i, col: b as usize }),
                0 <= j <= v.len(),
                forall|a: int, b: int|
                    0 <= a < i && 0 <= b < grid[0].len() ==> #[trigger] score_at(grid, a, b)
                        <= highest,
                forall|b: int| 0 <= b < j ==> #[trigger] score_at(grid, i as int, b) <= highest,
                i == 0 && j == 0 ==> highest == 0,
                i > 0 || j > 0 ==> exists|a: int, b: int|
                    0 <= a < grid.len() && 0 <= b < grid[0].len() && #[trigger] score_at(
                        grid,
                        a,
                        b,
                    ) == highest,
            decreases v.len() - j,
        {
            assert(v[j as int] == visibility_scores[i as int][j as int]);
            assert(v[j as int] == score_at(grid, i as int, j as int));
            if v[j] > highest || (i == 0 && j == 0) {
                highest = v[j];
            }
            j += 1;
        }
        i += 1;
    }
    assert(is_best(grid, highest as int));
    assert(best(grid) == highest) by {
        let m = best(grid);
        assert(is_best(grid, m));
    }
    format_u64(highest as u64)
}

/// The largest score of a tree, if `input` writes a square grid whose scores can be held.
pub fn try_puzzle_2(input: &str) -> (r: Option<String>)
    ensures
        r is Some == answer_2(input@) is Some,
        r is Some ==> r->0@ == decimal(answer_2(input@)->0),
{
    match read_forest(input) {
        Some(grid) => {
            if scores_hold(&grid) {
                Some(puzzle_2(input))
            } else {
                None
            }
        },
        None => None,
    }
}

} // verus!
