//! Hill climbing: the shortest way over a map of heights to the place with the best signal.

use crate::number::{decimal, format_u64};
use crate::text::{chars, nested, rows, rows_of, views};
use std::cmp::Ordering;
use std::collections::BTreeMap;
use vstd::prelude::*;

verus! {

broadcast use vstd::laws_cmp::group_laws_cmp;

/// A square of the map.
#[derive(PartialEq, Eq, Structural, PartialOrd, Ord, Debug, Clone, Copy)]
pub struct Coords {
    pub x: usize,
    pub y: usize,
}

/// The heights of the squares, by `(x, y)`.
pub type HeightMap = BTreeMap<(usize, usize), char>;

impl Coords {
    /// The square as a pair.
    pub open spec fn pair(self) -> (usize, usize) {
        (self.x, self.y)
    }

    /// The square to the left; the square itself at the left edge.
    pub fn shift_left(self) -> (r: Coords)
        ensures
            r.y == self.y,
            r.x == if self.x == 0 {
                0
            } else {
                self.x - 1
            },
    {
        Self { x: self.x.saturating_sub(1), y: self.y }
    }

    /// The square above; the square itself at the upper edge.
    pub fn shift_up(self) -> (r: Coords)
        ensures
            r.x == self.x,
            r.y == if self.y == 0 {
                0
            } else {
                self.y - 1
            },
    {
        Self { x: self.x, y: self.y.saturating_sub(1) }
    }

    /// The square to the right; the square itself where `x` cannot grow.
    pub fn shift_right(self) -> (r: Coords)
        ensures
            r.y == self.y,
            r.x == if self.x == usize::MAX {
                usize::MAX as int
            } else {
                self.x + 1
            },
    {
        Self { x: self.x.saturating_add(1), y: self.y }
    }

    /// The square below; the square itself where `y` cannot grow.
    pub fn shift_down(self) -> (r: Coords)
        ensures
            r.x == self.x,
            r.y == if self.y == usize::MAX {
                usize::MAX as int
            } else {
                self.y + 1
            },
    {
        Self { x: self.x, y: self.y.saturating_add(1) }
    }
}

/// Whether `(x, y)` is a square of the grid.
pub open spec fn in_grid(grid: Seq<Seq<char>>, x: int, y: int) -> bool {
    0 <= y < grid.len() && 0 <= x < grid[y].len()
}

/// Whether the square `(x, y)` of the grid holds `c`.
pub open spec fn marks(grid: Seq<Seq<char>>, c: char, x: int, y: int) -> bool {
    in_grid(grid, x, y) && grid[y][x] == c
}

/// Whether `(x, y)` is the first square that holds `c`: the one with the least `x`, and among
/// those the one with the least `y`.
pub open spec fn is_first(grid: Seq<Seq<char>>, c: char, x: int, y: int) -> bool {
    &&& marks(grid, c, x, y)
    &&& forall|a: int, b: int| #[trigger] marks(grid, c, a, b) ==> (x < a || (x == a && y <= b))
}

/// The first square that holds `c`, if a square does.
pub open spec fn first(grid: Seq<Seq<char>>, c: char) -> Option<Coords> {
    if exists|x: int, y: int| is_first(grid, c, x, y) {
        let (x, y) = choose|x: int, y: int| is_first(grid, c, x, y);
        Some(Coords { x: x as usize, y: y as usize })
    } else {
        None
    }
}

/// Looks for the first square that holds `c`.
fn find_first(lines: &Vec<&str>, c: char) -> (r: Option<Coords>)
    ensures
        r == first(views(lines@), c),
{
    let ghost grid = views(lines@);
    let mut best: Option<Coords> = None;
    let mut y: usize = 0;
    while y < lines.len()
        invariant
            grid == views(lines@),
            0 <= y <= lines.len(),
            best matches Some(p) ==> marks(grid, c, p.x as int, p.y as int),
            best matches Some(p) ==> forall|a: int, b: int|
                #[trigger] marks(grid, c, a, b) && b < y ==> (p.x < a || (p.x == a && p.y <= b)),
            best is None ==> forall|a: int, b: int| #[trigger] marks(grid, c, a, b) ==> b >= y,
        decreases lines.len() - y,
    {
        assert(grid[y as int] == lines@[y as int]@);
        let line = chars(lines[y]);
        let mut x: usize = 0;
        while x < line.len()
            invariant
                grid == views(lines@),
                0 <= y < lines.len(),
                line@ == grid[y as int],
                0 <= x <= line.len(),
                best matches Some(p) ==> marks(grid, c, p.x as int, p.y as int),
                best matches Some(p) ==> forall|a: int, b: int|
                    #[trigger] marks(grid, c, a, b) && (b < y || (b == y && a < x)) ==> (p.x < a || (
                    p.x == a && p.y <= b)),
                best is None ==> forall|a: int, b: int|
                    #[trigger] marks(grid, c, a, b) ==> (b > y || (b == y && a >= x)),
            decreases line.len() - x,
        {
            if line[x] == c {
                let better = match best {
                    Some(p) => x < p.x || (x == p.x && y < p.y),
                    None => true,
                };
                if better {
                    best = Some(Coords { x, y });
                }
            }
            x += 1;
        }
        y += 1;
    }
    proof {
        match best {
            Some(p) => {
                assert(is_first(grid, c, p.x as int, p.y as int));
                let (x, y) = choose|x: int, y: int| is_first(grid, c, x, y);
                assert(marks(grid, c, x, y));
                assert(marks(grid, c, p.x as int, p.y as int));
            },
            None => {
                assert forall|x: int, y: int| !is_first(grid, c, x, y) by {
                    if marks(grid, c, x, y) {
                        assert(false);
                    }
                }
            },
        }
    }
    best
}

/// The heights of the squares of the grid, where the square to start from has the height `a`
/// and the square to reach the height `z`.
pub open spec fn heights(grid: Seq<Seq<char>>, start: Coords, goal: Coords) -> Map<(usize, usize), char> {
    Map::new(
        |k: (usize, usize)| in_grid(grid, k.0 as int, k.1 as int),
        |k: (usize, usize)|
            if k == goal.pair() {
                'z'
            } else if k == start.pair() {
                'a'
            } else {
                grid[k.1 as int][k.0 as int]
            },
    )
}

/// The square to start from, which holds `S`, the square to reach, which holds `E`, and the
/// heights; `None` when a square of the two is missing.
pub open spec fn input_of(input: Seq<char>) -> Option<(Coords, Coords, Map<(usize, usize), char>)> {
    match (first(rows(input), 'S'), first(rows(input), 'E')) {
        (Some(start), Some(goal)) => Some((start, goal, heights(rows(input), start, goal))),
        _ => None,
    }
}

/// Reads the map, if it holds the two squares.
pub fn try_parse_input(input: &str) -> (r: Option<(Coords, Coords, HeightMap)>)
    ensures
        r is Some == input_of(input@) is Some,
        r matches Some(p) ==> input_of(input@) == Some((p.0, p.1, p.2@)),
{
    let lines = rows_of(input);
    let ghost grid = rows(input@);
    let start = match find_first(&lines, 'S') {
        Some(p) => p,
        None => {
            return None;
        },
    };
    let goal = match find_first(&lines, 'E') {
        Some(p) => p,
        None => {
            return None;
        },
    };
    let mut height_map_char: BTreeMap<(usize, usize), char> = BTreeMap::new();
    let mut y: usize = 0;
    assert(height_map_char@ =~= Map::new(
        |k: (usize, usize)| in_grid(grid, k.0 as int, k.1 as int) && k.1 < 0,
        |k: (usize, usize)| grid[k.1 as int][k.0 as int],
    ));
    while y < lines.len()
        invariant
            grid == views(lines@),
            0 <= y <= lines.len(),
            height_map_char@ == Map::new(
                |k: (usize, usize)| in_grid(grid, k.0 as int, k.1 as int) && k.1 < y,
                |k: (usize, usize)| grid[k.1 as int][k.0 as int],
            ),
        decreases lines.len() - y,
    {
        assert(grid[y as int] == lines@[y as int]@);
        let line = chars(lines[y]);
        let mut x: usize = 0;
        assert(height_map_char@ =~= Map::new(
            |k: (usize, usize)|
                in_grid(grid, k.0 as int, k.1 as int) && (k.1 < y || (k.1 == y && k.0 < 0)),
            |k: (usize, usize)| grid[k.1 as int][k.0 as int],
        ));
        while x < line.len()
            invariant
                grid == views(lines@),
                0 <= y < lines.len(),
                line@ == grid[y as int],
                0 <= x <= line.len(),
                height_map_char@ == Map::new(
                    |k: (usize, usize)|
                        in_grid(grid, k.0 as int, k.1 as int) && (k.1 < y || (k.1 == y && k.0 < x)),
                    |k: (usize, usize)| grid[k.1 as int][k.0 as int],
                ),
            decreases line.len() - x,
        {
            height_map_char.insert((x, y), line[x]);
            assert(height_map_char@ =~= Map::new(
                |k: (usize, usize)|
                    in_grid(grid, k.0 as int, k.1 as int) && (k.1 < y || (k.1 == y && k.0 < x + 1)),
                |k: (usize, usize)| grid[k.1 as int][k.0 as int],
            ));
            x += 1;
        }
        assert(height_map_char@ =~= Map::new(
            |k: (usize, usize)| in_grid(grid, k.0 as int, k.1 as int) && k.1 < y + 1,
            |k: (usize, usize)| grid[k.1 as int][k.0 as int],
        ));
        y += 1;
    }
    height_map_char.insert((start.x, start.y), 'a');
    height_map_char.insert((goal.x, goal.y), 'z');
    proof {
        let (sx, sy) = choose|x: int, y: int| is_first(grid, 'S', x, y);
        let (gx, gy) = choose|x: int, y: int| is_first(grid, 'E', x, y);
        assert(in_grid(grid, start.x as int, start.y as int));
        assert(in_grid(grid, goal.x as int, goal.y as int));
        assert(height_map_char@ =~= heights(grid, start, goal));
    }
    Some((start, goal, height_map_char))
}

/// Reads the map.
pub fn parse_input(input: &str) -> (r: (Coords, Coords, HeightMap))
    requires
        input_of(input@) is Some,
    ensures
        input_of(input@) == Some((r.0, r.1, r.2@)),
{
    try_parse_input(input).unwrap()
}

/// The height that a character stands for when the steps are compared: its lowest eight bits
/// as a number from -128 to 127.
pub open spec fn level(c: char) -> int {
    let b = (c as int) % 256;
    if b >= 128 {
        b - 256
    } else {
        b
    }
}

fn level_of(c: char) -> (r: i32)
    ensures
        r == level(c),
{
    let b: u32 = c as u32 % 256;
    if b >= 128 {
        b as i32 - 256
    } else {
        b as i32
    }
}

/// The four squares next to `p`: to the left, above, to the right and below. At an edge the
/// square itself stands in for the missing one.
pub open spec fn around(p: Coords) -> Seq<Coords> {
    seq![
        Coords {
            x: if p.x == 0 {
                0
            } else {
                (p.x - 1) as usize
            },
            y: p.y,
        },
        Coords {
            x: p.x,
            y: if p.y == 0 {
                0
            } else {
                (p.y - 1) as usize
            },
        },
        Coords {
            x: if p.x == usize::MAX {
                usize::MAX
            } else {
                (p.x + 1) as usize
            },
            y: p.y,
        },
        Coords {
            x: p.x,
            y: if p.y == usize::MAX {
                usize::MAX
            } else {
                (p.y + 1) as usize
            },
        },
    ]
}

/// How much higher `to` lies than `from`.
pub open spec fn rise(h: Map<(usize, usize), char>, from: Coords, to: Coords) -> int {
    level(h[to.pair()]) - level(h[from.pair()])
}

/// Whether one can step from `from` onto `to`: the square is on the map and at most one higher.
pub open spec fn open_step(h: Map<(usize, usize), char>, from: Coords, to: Coords) -> bool {
    h.dom().contains(to.pair()) && rise(h, from, to) < 2
}

/// The squares among the first `n` around `p` onto which one can step from `p`.
pub open spec fn open_to(h: Map<(usize, usize), char>, p: Coords, n: int) -> Seq<Coords>
    decreases n,
{
    if n <= 0 {
        Seq::empty()
    } else if open_step(h, p, around(p)[n - 1]) {
        open_to(h, p, n - 1).push(around(p)[n - 1])
    } else {
        open_to(h, p, n - 1)
    }
}

/// The squares onto which one can step from `p`.
pub open spec fn accessible(h: Map<(usize, usize), char>, p: Coords) -> Seq<Coords> {
    open_to(h, p, 4)
}

/// Whether the steps from `p` can be compared: `p` is on the map, and no square around it lies
/// more than 127 higher or more than 128 lower.
pub open spec fn steady(h: Map<(usize, usize), char>, p: Coords) -> bool {
    &&& h.dom().contains(p.pair())
    &&& forall|i: int|
        0 <= i < 4 && h.dom().contains((#[trigger] around(p)[i]).pair()) ==> -128 <= rise(
            h,
            p,
            around(p)[i],
        ) <= 127
}

/// The squares onto which one can step from the square, if the steps can be compared.
pub fn try_find_accesible_squares(height_map: &HeightMap, current_position: Coords) -> (r: Option<
    Vec<Coords>,
>)
    ensures
        r is Some == steady(height_map@, current_position),
        r is Some ==> r->0@ == accessible(height_map@, current_position),
        r is Some ==> r->0.len() <= 4,
{
    let current_height = match height_map.get(&(current_position.x, current_position.y)) {
        Some(c) => level_of(*c),
        None => {
            return None;
        },
    };
    let mut squares: Vec<Coords> = Vec::new();
    squares.push(current_position.shift_left());
    squares.push(current_position.shift_up());
    squares.push(current_position.shift_right());
    squares.push(current_position.shift_down());
    assert(squares@ =~= around(current_position));
    let mut accessible_squares: Vec<Coords> = Vec::new();
    let mut i: usize = 0;
    while i < 4
        invariant
            squares@ == around(current_position),
            height_map@.dom().contains(current_position.pair()),
            current_height == level(height_map@[current_position.pair()]),
            0 <= i <= 4,
            accessible_squares.len() <= i,
            accessible_squares@ == open_to(height_map@, current_position, i as int),
            forall|j: int|
                0 <= j < i && height_map@.dom().contains((#[trigger] around(current_position)[j]).pair())
                    ==> -128 <= rise(height_map@, current_position, around(current_position)[j])
                    <= 127,
        decreases 4 - i,
    {
        let potential_position = squares[i];
        match height_map.get(&(potential_position.x, potential_position.y)) {
            Some(height) => {
                let height_diff = level_of(*height) - current_height;
                if height_diff < -128 || height_diff > 127 {
                    assert(height_map@.dom().contains(around(current_position)[i as int].pair()));
                    return None;
                }
                if height_diff < 2 {
                    accessible_squares.push(potential_position);
                }
            },
            None => {},
        }
        i += 1;
    }
    Some(accessible_squares)
}

/// The squares onto which one can step from the square.
pub fn find_accesible_squares(height_map: &HeightMap, current_position: Coords) -> (r: Vec<Coords>)
    requires
        steady(height_map@, current_position),
    ensures
        r@ == accessible(height_map@, current_position),
{
    try_find_accesible_squares(height_map, current_position).unwrap()
}

/// A way that the search has found: the square it leads to, and the squares it passes after
/// the first, the last one being the square it leads to.
#[derive(Debug)]
pub struct TreeNode {
    pub position: Coords,
    pub path: Vec<Coords>,
    pub children: Vec<TreeNode>,
}

/// The place of a way in the order in which the search takes up the ways: the shorter way
/// first, and among ways of one length the one whose square has the smaller `x`, then the
/// smaller `y`.
pub open spec fn rank(position: Coords, path: Seq<Coords>) -> (usize, usize, usize) {
    (path.len() as usize, position.x, position.y)
}

/// Whether `a` comes before `b`.
pub open spec fn earlier(a: (usize, usize, usize), b: (usize, usize, usize)) -> bool {
    a.0 < b.0 || (a.0 == b.0 && (a.1 < b.1 || (a.1 == b.1 && a.2 < b.2)))
}

impl TreeNode {
    /// Compares two ways by their places in the order of the search.
    pub fn cmp(&self, other: &Self) -> (r: Ordering)
        ensures
            (r == Ordering::Less) == earlier(
                rank(self.position, self.path@),
                rank(other.position, other.path@),
            ),
            (r == Ordering::Greater) == earlier(
                rank(other.position, other.path@),
                rank(self.position, self.path@),
            ),
    {
        let a = (self.path.len(), self.position.x, self.position.y);
        let b = (other.path.len(), other.position.x, other.position.y);
        if a.0 < b.0 || (a.0 == b.0 && (a.1 < b.1 || (a.1 == b.1 && a.2 < b.2))) {
            Ordering::Less
        } else if a.0 == b.0 && a.1 == b.1 && a.2 == b.2 {
            Ordering::Equal
        } else {
            Ordering::Greater
        }
    }

    /// The same comparison, which never fails.
    pub fn partial_cmp(&self, other: &Self) -> (r: Option<Ordering>)
        ensures
            r is Some,
            (r == Some(Ordering::Less)) == earlier(
                rank(self.position, self.path@),
                rank(other.position, other.path@),
            ),
            (r == Some(Ordering::Greater)) == earlier(
                rank(other.position, other.path@),
                rank(self.position, self.path@),
            ),
    {
        Some(self.cmp(other))
    }

    /// Whether the two ways pass the same squares.
    pub fn eq(&self, other: &Self) -> (r: bool)
        ensures
            r == (self.path@ == other.path@),
    {
        if self.path.len() != other.path.len() {
            return false;
        }
        let mut i: usize = 0;
        while i < self.path.len()
            invariant
                self.path.len() == other.path.len(),
                0 <= i <= self.path.len(),
                forall|j: int| 0 <= j < i ==> self.path@[j] == other.path@[j],
            decreases self.path.len() - i,
        {
            if self.path[i] != other.path[i] {
                return false;
            }
            i += 1;
        }
        assert(self.path@ =~= other.path@);
        true
    }
}

/// The ways that wait to be taken up, by their places in the order of the search.
pub type Queue = BTreeMap<(usize, usize, usize), Vec<Coords>>;

/// The ways that wait, as sequences of squares.
pub open spec fn ways(q: Map<(usize, usize, usize), Vec<Coords>>) -> Map<
    (usize, usize, usize),
    Seq<Coords>,
> {
    Map::new(|k: (usize, usize, usize)| q.dom().contains(k), |k: (usize, usize, usize)| q[k]@)
}

/// The ways with the squares they lead to, as sequences of squares.
pub open spec fn kid_views(kids: Seq<(Coords, Vec<Coords>)>) -> Seq<(Coords, Seq<Coords>)> {
    Seq::new(kids.len(), |i: int| (kids[i].0, kids[i].1@))
}

/// What the search knows: the ways that wait, for each square reached the length of the
/// shortest way found to it, and the ways found to the goal.
pub struct Search {
    pub queue: Map<(usize, usize, usize), Seq<Coords>>,
    pub visited: Map<(usize, usize), usize>,
    pub results: Seq<Seq<Coords>>,
}

/// Whether no way waits.
pub open spec fn idle(queue: Map<(usize, usize, usize), Seq<Coords>>) -> bool {
    forall|k: (usize, usize, usize)| !queue.dom().contains(k)
}

/// Whether `k` is the place of the way that is taken up next.
pub open spec fn is_least(queue: Map<(usize, usize, usize), Seq<Coords>>, k: (usize, usize, usize)) -> bool {
    queue.dom().contains(k) && forall|j: (usize, usize, usize)|
        queue.dom().contains(j) ==> !earlier(j, k)
}

/// The place of the way that is taken up next.
pub open spec fn least(queue: Map<(usize, usize, usize), Seq<Coords>>) -> (usize, usize, usize) {
    choose|k: (usize, usize, usize)| is_least(queue, k)
}

/// `BTreeMap::first_key_value`, of which the key is kept: the least key of the map, where
/// triples are compared by their first numbers, then by their second, then by their third;
/// `None` when the map holds nothing.
#[verifier::external_body]
fn first_key(queue: &Queue) -> (r: Option<(usize, usize, usize)>)
    ensures
        r is None ==> forall|k: (usize, usize, usize)| !queue@.dom().contains(k),
        r matches Some(k) ==> queue@.dom().contains(k) && forall|j: (usize, usize, usize)|
            queue@.dom().contains(j) ==> !earlier(j, k),
{
    queue.first_key_value().map(|(k, _)| *k)
}

/// What becomes of the search when the squares from number `i` on, onto which one can step
/// from `position`, are looked at in turn: a square is passed over if it is `position` itself
/// or if a way to it is known that is not longer; else the way to it is noted, and it either
/// waits to be taken up or, if it leads to `end`, is a result and ends the look around.
pub open spec fn expand(
    h: Map<(usize, usize), char>,
    end: Coords,
    position: Coords,
    path: Seq<Coords>,
    i: int,
    visited: Map<(usize, usize), usize>,
    kids: Seq<(Coords, Seq<Coords>)>,
    results: Seq<Seq<Coords>>,
) -> (Map<(usize, usize), usize>, Seq<(Coords, Seq<Coords>)>, Seq<Seq<Coords>>)
    decreases accessible(h, position).len() - i,
{
    let squares = accessible(h, position);
    if i < 0 || i >= squares.len() {
        (visited, kids, results)
    } else {
        let next = squares[i];
        let longer = path.push(next);
        if next == position || (visited.dom().contains(next.pair()) && visited[next.pair()]
            <= longer.len()) {
            expand(h, end, position, path, i + 1, visited, kids, results)
        } else {
            let seen = visited.insert(next.pair(), longer.len() as usize);
            if next == end {
                (seen, kids, results.push(longer))
            } else {
                expand(h, end, position, path, i + 1, seen, kids.push((next, longer)), results)
            }
        }
    }
}

/// The queue after the ways from number `i` on have come to wait; a way does not come to wait
/// where one waits already that has the same place in the order.
pub open spec fn enqueue(
    queue: Map<(usize, usize, usize), Seq<Coords>>,
    kids: Seq<(Coords, Seq<Coords>)>,
    i: int,
) -> Map<(usize, usize, usize), Seq<Coords>>
    decreases kids.len() - i,
{
    if i < 0 || i >= kids.len() {
        queue
    } else {
        let k = rank(kids[i].0, kids[i].1);
        enqueue(
            if queue.dom().contains(k) {
                queue
            } else {
                queue.insert(k, kids[i].1)
            },
            kids,
            i + 1,
        )
    }
}

/// The search after the next way has been taken up; `None` when the steps from its square
/// cannot be compared.
pub open spec fn step(h: Map<(usize, usize), char>, end: Coords, s: Search) -> Option<Search> {
    let k = least(s.queue);
    let position = Coords { x: k.1, y: k.2 };
    if !steady(h, position) {
        None
    } else {
        let (visited, kids, results) = expand(
            h,
            end,
            position,
            s.queue[k],
            0,
            s.visited,
            Seq::empty(),
            s.results,
        );
        Some(Search { queue: enqueue(s.queue.remove(k), kids, 0), visited, results })
    }
}

/// The search after ways have been taken up until none waits, or until `fuel` ways have been
/// taken up.
pub open spec fn run(h: Map<(usize, usize), char>, end: Coords, s: Search, fuel: nat) -> Option<Search>
    decreases fuel,
{
    if fuel == 0 || idle(s.queue) {
        Some(s)
    } else {
        match step(h, end, s) {
            Some(next) => run(h, end, next, (fuel - 1) as nat),
            None => None,
        }
    }
}

/// Whether the search is in order on the map `h`: the map is not too large for its squares
/// to be counted, the squares reached lie on it, each way that waits stands under its own
/// length and is no longer than the number of squares reached, no way that waits is more than
/// one step longer than another, and no square has been reached by a way more than one step
/// longer than a way that waits.
pub open spec fn sound(h: Map<(usize, usize), char>, s: Search) -> bool {
    &&& h.dom().finite()
    &&& h.dom().len() <= usize::MAX
    &&& s.queue.dom().finite()
    &&& s.visited.dom().subset_of(h.dom())
    &&& forall|k: (usize, usize, usize)| #[trigger]
        s.queue.dom().contains(k) ==> s.queue[k].len() == k.0 && k.0 <= s.visited.dom().len()
    &&& forall|k: (usize, usize, usize), j: (usize, usize, usize)|
        #![trigger s.queue.dom().contains(k), s.queue.dom().contains(j)]
        s.queue.dom().contains(k) && s.queue.dom().contains(j) ==> k.0 <= j.0 + 1
    &&& forall|p: (usize, usize), j: (usize, usize, usize)|
        #![trigger s.visited.dom().contains(p), s.queue.dom().contains(j)]
        s.visited.dom().contains(p) && s.queue.dom().contains(j) ==> s.visited[p] <= j.0 + 1
}

/// What is left to the search at most: a way is taken up for each way that waits and for
/// each square that has not been reached.
pub open spec fn potential(h: Map<(usize, usize), char>, s: Search) -> int {
    h.dom().len() - s.visited.dom().len() + s.queue.dom().len()
}

/// Every square onto which one can step lies on the map.
pub proof fn lemma_open_on_map(h: Map<(usize, usize), char>, p: Coords, n: int)
    requires
        0 <= n <= 4,
    ensures
        forall|j: int|
            0 <= j < open_to(h, p, n).len() ==> h.dom().contains(
                (#[trigger] open_to(h, p, n)[j]).pair(),
            ),
    decreases n,
{
    if n > 0 {
        lemma_open_on_map(h, p, n - 1);
        let before = open_to(h, p, n - 1);
        assert forall|j: int| 0 <= j < open_to(h, p, n).len() implies h.dom().contains(
            (#[trigger] open_to(h, p, n)[j]).pair(),
        ) by {
            if j < before.len() {
                assert(open_to(h, p, n)[j] == before[j]);
            } else {
                assert(open_step(h, p, around(p)[n - 1]));
                assert(open_to(h, p, n)[j] == around(p)[n - 1]);
            }
        }
    }
}

/// Among the places of ways that wait there is a first.
pub proof fn lemma_has_least(keys: Set<(usize, usize, usize)>)
    requires
        keys.finite(),
        keys.len() > 0,
    ensures
        exists|k: (usize, usize, usize)|
            keys.contains(k) && forall|j: (usize, usize, usize)| keys.contains(j) ==> !earlier(j, k),
    decreases keys.len(),
{
    let a = keys.choose();
    let rest = keys.remove(a);
    if rest.len() == 0 {
        assert forall|j: (usize, usize, usize)| keys.contains(j) implies !earlier(j, a) by {
            if j != a {
                assert(rest.contains(j));
            }
        }
    } else {
        lemma_has_least(rest);
        let m = choose|m: (usize, usize, usize)|
            rest.contains(m) && forall|j: (usize, usize, usize)| rest.contains(j) ==> !earlier(j, m);
        let k = if earlier(a, m) {
            a
        } else {
            m
        };
        assert forall|j: (usize, usize, usize)| keys.contains(j) implies !earlier(j, k) by {
            if j != a {
                assert(rest.contains(j));
            }
        }
        assert(keys.contains(k));
    }
}

/// Looking around from the square of a way keeps the search in order: no known length is
/// changed for a longer one, every square noted lies on the map, every new way is one step
/// longer than the way it comes from, and there is a square newly reached for each new way.
pub proof fn lemma_expand(
    h: Map<(usize, usize), char>,
    end: Coords,
    position: Coords,
    path: Seq<Coords>,
    i: int,
    visited: Map<(usize, usize), usize>,
    kids: Seq<(Coords, Seq<Coords>)>,
    results: Seq<Seq<Coords>>,
)
    requires
        0 <= i,
        h.dom().finite(),
        h.dom().len() <= usize::MAX,
        visited.dom().subset_of(h.dom()),
        path.len() <= visited.dom().len(),
        forall|p: (usize, usize)| #[trigger] visited.dom().contains(p) ==> visited[p] <= path.len() + 1,
        forall|j: int| 0 <= j < kids.len() ==> (#[trigger] kids[j]).1.len() == path.len() + 1,
    ensures
        ({
            let (seen, all, found) = expand(h, end, position, path, i, visited, kids, results);
            &&& seen.dom().subset_of(h.dom())
            &&& visited.dom().subset_of(seen.dom())
            &&& forall|p: (usize, usize)| #[trigger] seen.dom().contains(p) ==> seen[p] <= path.len() + 1
            &&& all.len() >= kids.len()
            &&& forall|j: int| 0 <= j < all.len() ==> (#[trigger] all[j]).1.len() == path.len() + 1
            &&& seen.dom().len() - visited.dom().len() >= all.len() - kids.len()
            &&& path.len() + 1 <= usize::MAX || all.len() == kids.len()
        }),
    decreases accessible(h, position).len() - i,
{
    let squares = accessible(h, position);
    vstd::set_lib::lemma_len_subset(visited.dom(), h.dom());
    if i < squares.len() {
        let next = squares[i];
        let longer = path.push(next);
        if next == position || (visited.dom().contains(next.pair()) && visited[next.pair()]
            <= longer.len()) {
            lemma_expand(h, end, position, path, i + 1, visited, kids, results);
        } else {
            lemma_open_on_map(h, position, 4);
            assert(h.dom().contains(next.pair()));
            assert(!visited.dom().contains(next.pair()));
            let seen = visited.insert(next.pair(), longer.len() as usize);
            assert(seen.dom() =~= visited.dom().insert(next.pair()));
            assert(seen.dom().subset_of(h.dom()));
            vstd::set_lib::lemma_len_subset(seen.dom(), h.dom());
            assert(seen.dom().len() == visited.dom().len() + 1);
            assert(longer.len() <= usize::MAX);
            if next != end {
                lemma_expand(
                    h,
                    end,
                    position,
                    path,
                    i + 1,
                    seen,
                    kids.push((next, longer)),
                    results,
                );
            }
        }
    }
}

/// Letting ways of one length come to wait keeps what waited, adds at most one way for each
/// of them, and adds ways of that length only.
pub proof fn lemma_enqueue(
    queue: Map<(usize, usize, usize), Seq<Coords>>,
    kids: Seq<(Coords, Seq<Coords>)>,
    i: int,
    len: int,
)
    requires
        0 <= i <= kids.len(),
        0 <= len <= usize::MAX,
        queue.dom().finite(),
        forall|j: int| 0 <= j < kids.len() ==> (#[trigger] kids[j]).1.len() == len,
    ensures
        ({
            let after = enqueue(queue, kids, i);
            &&& after.dom().finite()
            &&& after.dom().len() <= queue.dom().len() + kids.len() - i
            &&& forall|k: (usize, usize, usize)| #[trigger]
                queue.dom().contains(k) ==> after.dom().contains(k) && after[k] == queue[k]
            &&& forall|k: (usize, usize, usize)| #[trigger]
                after.dom().contains(k) ==> queue.dom().contains(k) || (k.0 == len && after[k].len()
                    == len)
        }),
    decreases kids.len() - i,
{
    if i < kids.len() {
        let k = rank(kids[i].0, kids[i].1);
        let next = if queue.dom().contains(k) {
            queue
        } else {
            queue.insert(k, kids[i].1)
        };
        assert(k.0 == len);
        assert(next.dom() =~= if queue.dom().contains(k) {
            queue.dom()
        } else {
            queue.dom().insert(k)
        });
        lemma_enqueue(next, kids, i + 1, len);
        let after = enqueue(queue, kids, i);
        assert(after == enqueue(next, kids, i + 1));
        assert forall|j: (usize, usize, usize)| #[trigger] queue.dom().contains(j) implies after.dom().contains(
            j,
        ) && after[j] == queue[j] by {
            assert(next.dom().contains(j));
        }
        assert forall|j: (usize, usize, usize)| #[trigger] after.dom().contains(j) implies queue.dom().contains(
            j,
        ) || (j.0 == len && after[j].len() == len) by {
            if next.dom().contains(j) && !queue.dom().contains(j) {
                assert(j == k);
                assert(after[j] == next[j]);
            }
        }
    }
}

/// Taking up a way keeps the search in order and leaves less to it.
pub proof fn lemma_step(h: Map<(usize, usize), char>, end: Coords, s: Search)
    requires
        sound(h, s),
        !idle(s.queue),
        step(h, end, s) is Some,
    ensures
        sound(h, step(h, end, s)->0),
        potential(h, step(h, end, s)->0) < potential(h, s),
{
    let some = choose|k: (usize, usize, usize)| s.queue.dom().contains(k);
    assert(s.queue.dom().len() > 0) by {
        vstd::set_lib::lemma_set_empty_equivalency_len(s.queue.dom());
        assert(s.queue.dom().contains(some));
    }
    lemma_has_least(s.queue.dom());
    let first = choose|k: (usize, usize, usize)|
        s.queue.dom().contains(k) && forall|j: (usize, usize, usize)|
            s.queue.dom().contains(j) ==> !earlier(j, k);
    assert(is_least(s.queue, first));
    let k = least(s.queue);
    assert(is_least(s.queue, k));
    let position = Coords { x: k.1, y: k.2 };
    let path = s.queue[k];
    let (seen, kids, found) = expand(h, end, position, path, 0, s.visited, Seq::empty(), s.results);
    lemma_expand(h, end, position, path, 0, s.visited, Seq::empty(), s.results);
    let rest = s.queue.remove(k);
    assert(rest.dom() =~= s.queue.dom().remove(k));
    let after = enqueue(rest, kids, 0);
    if kids.len() > 0 {
        lemma_enqueue(rest, kids, 0, path.len() as int + 1);
    } else {
        assert(after == rest);
    }
    let next = Search { queue: after, visited: seen, results: found };
    assert(step(h, end, s)->0 == next);
    vstd::set_lib::lemma_len_subset(seen.dom(), h.dom());
    vstd::set_lib::lemma_len_subset(s.visited.dom(), seen.dom());
    assert forall|j: (usize, usize, usize)| #[trigger] after.dom().contains(j) implies k.0 <= j.0
        <= k.0 + 1 && after[j].len() == j.0 && j.0 <= seen.dom().len() by {
        if rest.dom().contains(j) {
            assert(s.queue.dom().contains(j));
            assert(!earlier(j, k));
        }
    }
}

/// A search that has at least as many ways left to take up as is left to it ends with no
/// way waiting.
pub proof fn lemma_run_ends(h: Map<(usize, usize), char>, end: Coords, s: Search, fuel: nat)
    requires
        sound(h, s),
        fuel >= potential(h, s),
    ensures
        run(h, end, s, fuel) matches Some(last) ==> idle(last.queue),
    decreases fuel,
{
    vstd::set_lib::lemma_len_subset(s.visited.dom(), h.dom());
    if fuel == 0 {
        vstd::set_lib::lemma_set_empty_equivalency_len(s.queue.dom());
        assert(s.queue.dom() == Set::<(usize, usize, usize)>::empty());
    } else if !idle(s.queue) {
        if step(h, end, s) is Some {
            lemma_step(h, end, s);
            lemma_run_ends(h, end, step(h, end, s)->0, (fuel - 1) as nat);
        }
    }
}

/// The square that a way stands under in the queue.
pub open spec fn square(k: (usize, usize, usize)) -> Coords {
    Coords { x: k.1, y: k.2 }
}

/// Whether one step leads from `p` onto the other square `q`.
pub open spec fn leads(h: Map<(usize, usize), char>, p: Coords, q: Coords) -> bool {
    q != p && accessible(h, p).contains(q)
}

/// Whether the search starts from `p`.
pub open spec fn is_seed(h: Map<(usize, usize), char>, start: Option<Coords>, p: Coords) -> bool {
    seeds(h, start).dom().contains((0usize, p.x, p.y))
}

/// Whether the squares of `w` can be walked in turn from `from`, each with one step.
pub open spec fn is_way(h: Map<(usize, usize), char>, from: Coords, w: Seq<Coords>) -> bool {
    forall|i: int|
        0 <= i < w.len() ==> leads(
            h,
            if i == 0 {
                from
            } else {
                w[i - 1]
            },
            #[trigger] w[i],
        )
}

/// Whether `w` can be walked from a square from which the search starts.
pub open spec fn rooted(h: Map<(usize, usize), char>, start: Option<Coords>, w: Seq<Coords>) -> bool {
    exists|from: Coords| is_seed(h, start, from) && is_way(h, from, w)
}

/// Whether `w` is a way from a square from which the search starts to `p`; the way without
/// a step is one where the search starts from `p`.
pub open spec fn comes_to(
    h: Map<(usize, usize), char>,
    start: Option<Coords>,
    w: Seq<Coords>,
    p: Coords,
) -> bool {
    if w.len() == 0 {
        is_seed(h, start, p)
    } else {
        rooted(h, start, w) && w.last() == p
    }
}

/// Whether `w` is a way of at least one step from a square from which the search starts to
/// `to`.
pub open spec fn reaches(
    h: Map<(usize, usize), char>,
    start: Option<Coords>,
    w: Seq<Coords>,
    to: Coords,
) -> bool {
    w.len() > 0 && comes_to(h, start, w, to)
}

/// A way to `p` and a step from `p` to `q` make a way to `q`.
pub proof fn lemma_way_goes_on(
    h: Map<(usize, usize), char>,
    start: Option<Coords>,
    w: Seq<Coords>,
    p: Coords,
    q: Coords,
)
    requires
        comes_to(h, start, w, p),
        leads(h, p, q),
    ensures
        reaches(h, start, w.push(q), q),
{
    let longer = w.push(q);
    let from = if w.len() == 0 {
        p
    } else {
        choose|from: Coords| is_seed(h, start, from) && is_way(h, from, w)
    };
    assert forall|i: int| 0 <= i < longer.len() implies leads(
        h,
        if i == 0 {
            from
        } else {
            longer[i - 1]
        },
        #[trigger] longer[i],
    ) by {
        if i < w.len() {
            assert(longer[i] == w[i]);
            assert(leads(
                h,
                if i == 0 {
                    from
                } else {
                    w[i - 1]
                },
                w[i],
            ));
        }
    }
    assert(is_seed(h, start, from) && is_way(h, from, longer));
}

/// Whether a way to `q` of at most `d` steps has been noted.
pub open spec fn known_within(visited: Map<(usize, usize), usize>, q: Coords, d: int) -> bool {
    visited.dom().contains(q.pair()) && visited[q.pair()] <= d
}

/// What looking around from `position` leaves, beyond what `lemma_expand` tells: lengths
/// noted before stay; a length newly noted is that of the way with one more step, and its
/// square either has a new way that waits or is `end`, with a new result; each new way is
/// the way taken up with one more step, onto a square to which a step leads; a new result
/// is the way taken up with a step onto `end`; and unless there is one, a way of at most
/// one more step is known to every square around from number `i` on.
pub open spec fn looked_around(
    h: Map<(usize, usize), char>,
    end: Coords,
    position: Coords,
    path: Seq<Coords>,
    i: int,
    visited: Map<(usize, usize), usize>,
    kids: Seq<(Coords, Seq<Coords>)>,
    results: Seq<Seq<Coords>>,
) -> bool {
    let (seen, all, found) = expand(h, end, position, path, i, visited, kids, results);
    &&& forall|p: (usize, usize)| #[trigger]
        visited.dom().contains(p) ==> seen.dom().contains(p) && seen[p] == visited[p]
    &&& forall|p: (usize, usize)| #[trigger]
        seen.dom().contains(p) ==> visited.dom().contains(p) || (seen[p] == path.len() + 1 && (
            is_kid(all, kids.len() as int, p) || (p == end.pair() && found.len() == results.len()
                + 1)))
    &&& all.len() >= kids.len()
    &&& forall|j: int| 0 <= j < kids.len() ==> #[trigger] all[j] == kids[j]
    &&& forall|j: int|
        kids.len() <= j < all.len() ==> (#[trigger] all[j]).1 == path.push(all[j].0) && leads(
            h,
            position,
            all[j].0,
        ) && all[j].0 != end && seen.dom().contains(all[j].0.pair()) && seen[all[j].0.pair()]
            == path.len() + 1
    &&& found.len() == results.len() ==> found == results
    &&& found.len() != results.len() ==> found == results.push(path.push(end)) && leads(
        h,
        position,
        end,
    ) && !visited.dom().contains(end.pair()) && seen.dom().contains(end.pair())
    &&& found.len() == results.len() ==> forall|m: int|
        i <= m < accessible(h, position).len() && (#[trigger] accessible(h, position)[m])
            != position ==> known_within(seen, accessible(h, position)[m], path.len() as int + 1)
}

/// Whether one of the ways from number `from` on leads to the square `p`.
pub open spec fn is_kid(all: Seq<(Coords, Seq<Coords>)>, from: int, p: (usize, usize)) -> bool {
    exists|j: int| from <= j < all.len() && (#[trigger] all[j]).0.pair() == p
}

/// Looking around leaves what `looked_around` says.
pub proof fn lemma_looked_around(
    h: Map<(usize, usize), char>,
    end: Coords,
    position: Coords,
    path: Seq<Coords>,
    i: int,
    visited: Map<(usize, usize), usize>,
    kids: Seq<(Coords, Seq<Coords>)>,
    results: Seq<Seq<Coords>>,
)
    requires
        0 <= i,
        h.dom().finite(),
        h.dom().len() <= usize::MAX,
        visited.dom().subset_of(h.dom()),
        path.len() <= visited.dom().len(),
        forall|p: (usize, usize)| #[trigger] visited.dom().contains(p) ==> visited[p] <= path.len() + 1,
    ensures
        looked_around(h, end, position, path, i, visited, kids, results),
    decreases accessible(h, position).len() - i,
{
    let squares = accessible(h, position);
    vstd::set_lib::lemma_len_subset(visited.dom(), h.dom());
    if i < squares.len() {
        let next = squares[i];
        let longer = path.push(next);
        if next == position || (visited.dom().contains(next.pair()) && visited[next.pair()]
            <= longer.len()) {
            lemma_looked_around(h, end, position, path, i + 1, visited, kids, results);
            let (seen, all, found) = expand(h, end, position, path, i + 1, visited, kids, results);
            if found.len() == results.len() {
                assert forall|m: int|
                    i <= m < squares.len() && (#[trigger] squares[m]) != position implies known_within(
                    seen,
                    squares[m],
                    path.len() as int + 1,
                ) by {
                    if m == i {
                        assert(visited.dom().contains(next.pair()));
                    }
                }
            }
        } else {
            lemma_open_on_map(h, position, 4);
            assert(h.dom().contains(next.pair()));
            assert(!visited.dom().contains(next.pair()));
            let first = visited.insert(next.pair(), longer.len() as usize);
            assert(first.dom() =~= visited.dom().insert(next.pair()));
            assert(first.dom().subset_of(h.dom()));
            vstd::set_lib::lemma_len_subset(first.dom(), h.dom());
            assert(first.dom().len() == visited.dom().len() + 1);
            assert(longer.len() <= usize::MAX);
            assert(squares.contains(next));
            assert(leads(h, position, next));
            if next != end {
                let more = kids.push((next, longer));
                lemma_looked_around(h, end, position, path, i + 1, first, more, results);
                let (seen, all, found) = expand(h, end, position, path, i + 1, first, more, results);
                assert(all[kids.len() as int] == more[kids.len() as int]);
                assert(is_kid(all, kids.len() as int, next.pair()));
                assert forall|p: (usize, usize)| #[trigger] visited.dom().contains(p) implies seen.dom().contains(
                    p,
                ) && seen[p] == visited[p] by {
                    assert(first.dom().contains(p));
                }
                assert forall|p: (usize, usize)| #[trigger] seen.dom().contains(p) implies visited.dom().contains(
                    p,
                ) || (seen[p] == path.len() + 1 && (is_kid(all, kids.len() as int, p) || (p
                    == end.pair() && found.len() == results.len() + 1))) by {
                    if !visited.dom().contains(p) && p != next.pair() {
                        assert(!first.dom().contains(p));
                        if is_kid(all, more.len() as int, p) {
                            let j = choose|j: int| more.len() <= j < all.len() && (
                            #[trigger] all[j]).0.pair() == p;
                            assert(kids.len() <= j < all.len() && all[j].0.pair() == p);
                        }
                    }
                }
                assert forall|j: int| 0 <= j < kids.len() implies #[trigger] all[j] == kids[j] by {
                    assert(all[j] == more[j]);
                }
                assert forall|j: int| kids.len() <= j < all.len() implies (#[trigger] all[j]).1
                    == path.push(all[j].0) && leads(h, position, all[j].0) && all[j].0 != end
                    && seen.dom().contains(all[j].0.pair()) && seen[all[j].0.pair()] == path.len()
                    + 1 by {
                    if j == kids.len() {
                        assert(all[j] == more[j]);
                        assert(first.dom().contains(next.pair()));
                    }
                }
                if found.len() == results.len() {
                    assert forall|m: int|
                        i <= m < squares.len() && (#[trigger] squares[m]) != position implies known_within(
                        seen,
                        squares[m],
                        path.len() as int + 1,
                    ) by {
                        if m == i {
                            assert(first.dom().contains(next.pair()));
                        }
                    }
                }
                assert(looked_around(h, end, position, path, i, visited, kids, results));
            } else {
                assert(!is_kid(kids, kids.len() as int, next.pair()));
                assert(looked_around(h, end, position, path, i, visited, kids, results));
            }
        }
    }
}

/// Whether the way without a step, where the search starts from `p`, or the way of `d` steps
/// noted for `p`, is a way to `p`.
pub open spec fn on_level(
    h: Map<(usize, usize), char>,
    start: Option<Coords>,
    visited: Map<(usize, usize), usize>,
    p: Coords,
    d: int,
) -> bool {
    (d == 0 && is_seed(h, start, p)) || (visited.dom().contains(p.pair()) && visited[p.pair()] == d)
}

/// Whether a way of `d` steps to `p` waits.
pub open spec fn waits(queue: Map<(usize, usize, usize), Seq<Coords>>, p: Coords, d: int) -> bool {
    0 <= d <= usize::MAX && queue.dom().contains((d as usize, p.x, p.y))
}

/// Whether a way of at most `d + 1` steps is known to every square to which a step leads
/// from `p`.
pub open spec fn spread(
    h: Map<(usize, usize), char>,
    visited: Map<(usize, usize), usize>,
    p: Coords,
    d: int,
) -> bool {
    forall|q: Coords| #[trigger] leads(h, p, q) ==> known_within(visited, q, d + 1)
}

/// Whether `w` is a way to `end` from a square from which the search starts, and no such
/// way has fewer steps.
pub open spec fn best(
    h: Map<(usize, usize), char>,
    start: Option<Coords>,
    end: Coords,
    w: Seq<Coords>,
) -> bool {
    reaches(h, start, w, end) && forall|v: Seq<Coords>| #[trigger]
        reaches(h, start, v, end) ==> w.len() <= v.len()
}

/// What holds of a search for the shortest way: it is in order; each way that waits is a
/// way to its square, noted with its length unless it has no step; at most one way to `end`
/// has been found, which is a shortest one, and one has been found if and only if `end` has
/// been reached; and until then, from every square whose way has been taken up the search
/// has spread to the squares around.
pub open spec fn searching(
    h: Map<(usize, usize), char>,
    start: Option<Coords>,
    end: Coords,
    s: Search,
) -> bool {
    &&& sound(h, s)
    &&& forall|k: (usize, usize, usize)| #[trigger]
        s.queue.dom().contains(k) ==> comes_to(h, start, s.queue[k], square(k)) && (k.0 > 0
            ==> s.visited.dom().contains(square(k).pair()) && s.visited[square(k).pair()] == k.0)
    &&& s.results.len() <= 1
    &&& s.results.len() == 1 ==> best(h, start, end, s.results[0])
    &&& s.visited.dom().contains(end.pair()) <==> s.results.len() == 1
    &&& s.results.len() == 0 ==> forall|p: Coords, d: int| #[trigger]
        on_level(h, start, s.visited, p, d) && !waits(s.queue, p, d) ==> spread(
            h,
            s.visited,
            p,
            d,
        )
}

/// While no way to `end` has been found and only ways of at least `floor` steps wait, a way
/// of at most as many steps has been noted to the last square of every way of at most
/// `floor` steps.
pub proof fn lemma_along(
    h: Map<(usize, usize), char>,
    start: Option<Coords>,
    end: Coords,
    s: Search,
    from: Coords,
    v: Seq<Coords>,
    floor: int,
)
    requires
        searching(h, start, end, s),
        s.results.len() == 0,
        forall|k: (usize, usize, usize)| #[trigger] s.queue.dom().contains(k) ==> k.0 >= floor,
        is_seed(h, start, from),
        is_way(h, from, v),
        1 <= v.len() <= floor,
    ensures
        known_within(s.visited, v.last(), v.len() as int),
    decreases v.len(),
{
    let n = v.len() as int;
    if n == 1 {
        assert(on_level(h, start, s.visited, from, 0));
        assert(!waits(s.queue, from, 0));
        assert(spread(h, s.visited, from, 0));
        assert(leads(h, from, v[0]));
    } else {
        let u = v.drop_last();
        assert forall|i: int| 0 <= i < u.len() implies leads(
            h,
            if i == 0 {
                from
            } else {
                u[i - 1]
            },
            #[trigger] u[i],
        ) by {
            assert(u[i] == v[i]);
            assert(leads(
                h,
                if i == 0 {
                    from
                } else {
                    v[i - 1]
                },
                v[i],
            ));
        }
        lemma_along(h, start, end, s, from, u, floor);
        let p = u.last();
        let d = s.visited[p.pair()] as int;
        assert(on_level(h, start, s.visited, p, d));
        assert(!waits(s.queue, p, d));
        assert(spread(h, s.visited, p, d));
        assert(v[n - 2] == p);
        assert(leads(h, v[n - 1 - 1], v[n - 1]));
    }
}

/// Every way that comes to wait stands in the queue, and a way that waits afterwards waited
/// before or is one of those that came.
pub proof fn lemma_enqueue_kids(
    queue: Map<(usize, usize, usize), Seq<Coords>>,
    kids: Seq<(Coords, Seq<Coords>)>,
    i: int,
)
    requires
        0 <= i <= kids.len(),
    ensures
        forall|j: int|
            i <= j < kids.len() ==> enqueue(queue, kids, i).dom().contains(
                rank((#[trigger] kids[j]).0, kids[j].1),
            ),
        forall|k: (usize, usize, usize)| #[trigger]
            queue.dom().contains(k) ==> enqueue(queue, kids, i).dom().contains(k) && enqueue(
                queue,
                kids,
                i,
            )[k] == queue[k],
        forall|k: (usize, usize, usize)| #[trigger]
            enqueue(queue, kids, i).dom().contains(k) ==> queue.dom().contains(k) || came(
                enqueue(queue, kids, i),
                kids,
                i,
                k,
            ),
    decreases kids.len() - i,
{
    if i < kids.len() {
        let k = rank(kids[i].0, kids[i].1);
        let next = if queue.dom().contains(k) {
            queue
        } else {
            queue.insert(k, kids[i].1)
        };
        lemma_enqueue_kids(next, kids, i + 1);
        let after = enqueue(queue, kids, i);
        assert(after == enqueue(next, kids, i + 1));
        assert forall|j: int| i <= j < kids.len() implies after.dom().contains(
            rank((#[trigger] kids[j]).0, kids[j].1),
        ) by {
            if j == i {
                assert(next.dom().contains(k));
            }
        }
        assert forall|key: (usize, usize, usize)| #[trigger] queue.dom().contains(key) implies after.dom().contains(
            key,
        ) && after[key] == queue[key] by {
            assert(next.dom().contains(key));
        }
        assert forall|key: (usize, usize, usize)| #[trigger] after.dom().contains(key) implies queue.dom().contains(
            key,
        ) || came(after, kids, i, key) by {
            if !queue.dom().contains(key) {
                if next.dom().contains(key) {
                    assert(key == k);
                    assert(after[key] == next[key]);
                    assert(rank(kids[i].0, kids[i].1) == key && after[key] == kids[i].1);
                } else {
                    assert(came(after, kids, i + 1, key));
                    let j = choose|j: int|
                        i + 1 <= j < kids.len() && rank((#[trigger] kids[j]).0, kids[j].1) == key
                            && after[key] == kids[j].1;
                    assert(i <= j < kids.len() && rank(kids[j].0, kids[j].1) == key && after[key]
                        == kids[j].1);
                }
            }
        }
    }
}

/// Whether the way that waits under `k` is one of the ways from number `i` on.
pub open spec fn came(
    after: Map<(usize, usize, usize), Seq<Coords>>,
    kids: Seq<(Coords, Seq<Coords>)>,
    i: int,
    k: (usize, usize, usize),
) -> bool {
    exists|j: int|
        i <= j < kids.len() && rank((#[trigger] kids[j]).0, kids[j].1) == k && after[k] == kids[j].1
}

/// Taking up a way keeps what holds of a search for the shortest way.
pub proof fn lemma_search_step(
    h: Map<(usize, usize), char>,
    start: Option<Coords>,
    end: Coords,
    s: Search,
)
    requires
        searching(h, start, end, s),
        !idle(s.queue),
        step(h, end, s) is Some,
    ensures
        searching(h, start, end, step(h, end, s)->0),
{
    lemma_step(h, end, s);
    let some = choose|k: (usize, usize, usize)| s.queue.dom().contains(k);
    assert(s.queue.dom().len() > 0) by {
        vstd::set_lib::lemma_set_empty_equivalency_len(s.queue.dom());
        assert(s.queue.dom().contains(some));
    }
    lemma_has_least(s.queue.dom());
    let first = choose|k: (usize, usize, usize)|
        s.queue.dom().contains(k) && forall|j: (usize, usize, usize)|
            s.queue.dom().contains(j) ==> !earlier(j, k);
    assert(is_least(s.queue, first));
    let k = least(s.queue);
    assert(is_least(s.queue, k));
    let position = Coords { x: k.1, y: k.2 };
    assert(position == square(k));
    let path = s.queue[k];
    let level = path.len() as int;
    assert(level == k.0);
    let (seen, kids, found) = expand(h, end, position, path, 0, s.visited, Seq::empty(), s.results);
    lemma_expand(h, end, position, path, 0, s.visited, Seq::empty(), s.results);
    lemma_looked_around(h, end, position, path, 0, s.visited, Seq::empty(), s.results);
    let rest = s.queue.remove(k);
    assert(rest.dom() =~= s.queue.dom().remove(k));
    let after = enqueue(rest, kids, 0);
    lemma_enqueue_kids(rest, kids, 0);
    let next = Search { queue: after, visited: seen, results: found };
    assert(step(h, end, s)->0 == next);
    assert(comes_to(h, start, path, position));
    assert forall|j: (usize, usize, usize)| #[trigger] s.queue.dom().contains(j) implies j.0
        >= level by {
        assert(!earlier(j, k));
    }
    // the ways that wait
    assert forall|key: (usize, usize, usize)| #[trigger] after.dom().contains(key) implies comes_to(
        h,
        start,
        after[key],
        square(key),
    ) && (key.0 > 0 ==> seen.dom().contains(square(key).pair()) && seen[square(key).pair()]
        == key.0) by {
        if rest.dom().contains(key) {
            assert(s.queue.dom().contains(key));
            assert(after[key] == s.queue[key]);
            if key.0 > 0 {
                assert(s.visited.dom().contains(square(key).pair()));
            }
        } else {
            assert(came(after, kids, 0, key));
            let j = choose|j: int|
                0 <= j < kids.len() && rank((#[trigger] kids[j]).0, kids[j].1) == key && after[key]
                    == kids[j].1;
            assert(kids[j].1 == path.push(kids[j].0));
            lemma_way_goes_on(h, start, path, position, kids[j].0);
            assert(square(key) == kids[j].0);
        }
    }
    // the ways found
    if found.len() != s.results.len() {
        assert(s.results.len() == 0);
        let way = path.push(end);
        lemma_way_goes_on(h, start, path, position, end);
        assert(found[0] == way);
        assert forall|v: Seq<Coords>| #[trigger] reaches(h, start, v, end) implies way.len()
            <= v.len() by {
            if v.len() <= level {
                let from = choose|from: Coords| is_seed(h, start, from) && is_way(h, from, v);
                lemma_along(h, start, end, s, from, v, level);
                assert(s.visited.dom().contains(end.pair()));
            }
        }
        assert(best(h, start, end, found[0]));
    }
    assert(seen.dom().contains(end.pair()) <==> found.len() == 1) by {
        if seen.dom().contains(end.pair()) && !s.visited.dom().contains(end.pair()) {
            if is_kid(kids, 0, end.pair()) {
                let j = choose|j: int| 0 <= j < kids.len() && (#[trigger] kids[j]).0.pair()
                    == end.pair();
                assert(kids[j].0 != end);
            }
        }
    }
    // the spreading
    if found.len() == 0 {
        assert forall|p: Coords, d: int| #[trigger]
            on_level(h, start, seen, p, d) && !waits(after, p, d) implies spread(h, seen, p, d) by {
            if p == position && d == level {
                assert forall|q: Coords| #[trigger] leads(h, p, q) implies known_within(
                    seen,
                    q,
                    d + 1,
                ) by {
                    let m = choose|m: int|
                        0 <= m < accessible(h, position).len() && accessible(h, position)[m] == q;
                    assert(accessible(h, position)[m] != position);
                }
            } else {
                if d == 0 && is_seed(h, start, p) {
                    assert(on_level(h, start, s.visited, p, d));
                } else if s.visited.dom().contains(p.pair()) {
                    assert(on_level(h, start, s.visited, p, d));
                } else {
                    assert(is_kid(kids, 0, p.pair()));
                    let j = choose|j: int| 0 <= j < kids.len() && (#[trigger] kids[j]).0.pair()
                        == p.pair();
                    assert(kids[j].0 == p);
                    assert(after.dom().contains(rank(kids[j].0, kids[j].1)));
                    assert(false);
                }
                assert(!waits(s.queue, p, d)) by {
                    if waits(s.queue, p, d) {
                        assert(rest.dom().contains((d as usize, p.x, p.y)));
                    }
                }
                assert(spread(h, s.visited, p, d));
                assert forall|q: Coords| #[trigger] leads(h, p, q) implies known_within(
                    seen,
                    q,
                    d + 1,
                ) by {
                    assert(known_within(s.visited, q, d + 1));
                }
            }
        }
    }
}

/// What holds of a search for the shortest way holds of it to its end.
pub proof fn lemma_search_runs(
    h: Map<(usize, usize), char>,
    start: Option<Coords>,
    end: Coords,
    s: Search,
    fuel: nat,
)
    requires
        searching(h, start, end, s),
    ensures
        run(h, end, s, fuel) matches Some(last) ==> searching(h, start, end, last),
    decreases fuel,
{
    if fuel > 0 && !idle(s.queue) {
        if step(h, end, s) is Some {
            lemma_search_step(h, start, end, s);
            lemma_search_runs(h, start, end, step(h, end, s)->0, (fuel - 1) as nat);
        }
    }
}

/// The number of the first among the shortest of the first `n` ways.
pub open spec fn shortest(results: Seq<Seq<Coords>>, n: int) -> int
    decreases n,
{
    if n <= 1 {
        0
    } else {
        let b = shortest(results, n - 1);
        if results[n - 1].len() < results[b].len() {
            n - 1
        } else {
            b
        }
    }
}

/// The first among the shortest of the ways found; no squares when none has been found.
pub open spec fn outcome(results: Seq<Seq<Coords>>) -> Seq<Coords> {
    if results.len() == 0 {
        Seq::empty()
    } else {
        results[shortest(results, results.len() as int)]
    }
}

/// The ways that wait at first: the empty way at `start`, or at every square of height `a`
/// where no start is given.
pub open spec fn seeds(h: Map<(usize, usize), char>, start: Option<Coords>) -> Map<
    (usize, usize, usize),
    Seq<Coords>,
> {
    match start {
        Some(p) => Map::empty().insert((0usize, p.x, p.y), Seq::empty()),
        None => Map::new(
            |k: (usize, usize, usize)| k.0 == 0 && h.dom().contains((k.1, k.2)) && h[(k.1, k.2)] == 'a',
            |k: (usize, usize, usize)| Seq::empty(),
        ),
    }
}

/// The search before a way has been taken up.
pub open spec fn outset(h: Map<(usize, usize), char>, start: Option<Coords>) -> Search {
    Search { queue: seeds(h, start), visited: Map::empty(), results: Seq::empty() }
}

/// The most ways that a search takes up: one for each way that waits at first, and one for
/// each square of the map.
pub open spec fn budget(h: Map<(usize, usize), char>, start: Option<Coords>) -> nat {
    h.dom().len() + seeds(h, start).dom().len()
}

/// The way to `end` that the search finds: the squares passed after the start, `end` last;
/// no squares when it finds none. `None` when the steps from a square cannot be compared.
pub open spec fn solution(h: Map<(usize, usize), char>, start: Option<Coords>, end: Coords) -> Option<
    Seq<Coords>,
> {
    match run(h, end, outset(h, start), budget(h, start)) {
        Some(s) => Some(outcome(s.results)),
        None => None,
    }
}

/// The ways that wait at first are finite in number.
pub proof fn lemma_seeds_finite(h: Map<(usize, usize), char>, start: Option<Coords>)
    requires
        h.dom().finite(),
    ensures
        seeds(h, start).dom().finite(),
{
    match start {
        Some(p) => {
            assert(seeds(h, start).dom() =~= Set::<(usize, usize, usize)>::empty().insert(
                (0usize, p.x, p.y),
            ));
        },
        None => {
            let low = h.dom().filter(|p: (usize, usize)| h[p] == 'a');
            let place = |p: (usize, usize)| (0usize, p.0, p.1);
            h.dom().lemma_len_filter(|p: (usize, usize)| h[p] == 'a');
            low.lemma_map_finite(place);
            assert forall|k: (usize, usize, usize)| seeds(h, start).dom().contains(k) implies low.map(
                place,
            ).contains(k) by {
                assert(low.contains((k.1, k.2)));
                assert(place((k.1, k.2)) == k);
            }
            assert(seeds(h, start).dom() =~= low.map(place));
        },
    }
}

/// The search is complete: on a map whose squares can be counted it ends, within its
/// budget, with no way waiting, unless the steps from a square cannot be compared.
pub proof fn lemma_search_is_complete(h: Map<(usize, usize), char>, start: Option<Coords>, end: Coords)
    requires
        h.dom().finite(),
        h.dom().len() <= usize::MAX,
    ensures
        run(h, end, outset(h, start), budget(h, start)) matches Some(last) ==> idle(last.queue),
{
    lemma_seeds_finite(h, start);
    lemma_run_ends(h, end, outset(h, start), budget(h, start));
}

/// The way that the search finds is a shortest way: it leads from a square from which the
/// search starts to `end`, each step onto another square onto which one can step, and no
/// such way has fewer steps. Where the search finds no way, there is none.
pub proof fn lemma_solution_is_shortest(h: Map<(usize, usize), char>, start: Option<Coords>, end: Coords)
    requires
        h.dom().finite(),
        h.dom().len() <= usize::MAX,
    ensures
        solution(h, start, end) matches Some(way) ==> if way.len() == 0 {
            forall|v: Seq<Coords>| !reaches(h, start, v, end)
        } else {
            best(h, start, end, way)
        },
{
    let first = outset(h, start);
    lemma_seeds_finite(h, start);
    assert(sound(h, first));
    assert(searching(h, start, end, first)) by {
        assert forall|k: (usize, usize, usize)| #[trigger] first.queue.dom().contains(k) implies comes_to(
            h,
            start,
            first.queue[k],
            square(k),
        ) && k.0 == 0 by {
            assert(first.queue[k].len() == 0);
            assert(is_seed(h, start, square(k)));
        }
        assert forall|p: Coords, d: int| #[trigger]
            on_level(h, start, first.visited, p, d) && !waits(first.queue, p, d) implies spread(
            h,
            first.visited,
            p,
            d,
        ) by {
            assert(d == 0 && is_seed(h, start, p));
            assert(first.queue.dom().contains((0usize, p.x, p.y)));
        }
    }
    lemma_search_runs(h, start, end, first, budget(h, start));
    lemma_search_is_complete(h, start, end);
    match run(h, end, first, budget(h, start)) {
        Some(last) => {
            let way = outcome(last.results);
            if last.results.len() == 0 {
                assert forall|v: Seq<Coords>| !reaches(h, start, v, end) by {
                    if reaches(h, start, v, end) {
                        let from = choose|from: Coords| is_seed(h, start, from) && is_way(h, from, v);
                        lemma_along(h, start, end, last, from, v, v.len() as int);
                        assert(last.visited.dom().contains(end.pair()));
                    }
                }
            } else {
                assert(shortest(last.results, 1) == 0);
                assert(way == last.results[0]);
            }
        },
        None => {},
    }
}

fn copy_path(path: &Vec<Coords>) -> (r: Vec<Coords>)
    ensures
        r@ == path@,
{
    let mut r: Vec<Coords> = Vec::new();
    let mut i: usize = 0;
    while i < path.len()
        invariant
            0 <= i <= path.len(),
            r@ == path@.take(i as int),
        decreases path.len() - i,
    {
        r.push(path[i]);
        assert(r@ =~= path@.take(i + 1));
        i += 1;
    }
    assert(path@.take(path.len() as int) =~= path@);
    r
}

/// Looks around from the square of a way that has been taken up.
fn expand_node(
    height_map: &HeightMap,
    end: Coords,
    position: Coords,
    path: &Vec<Coords>,
    visited_positions: &mut BTreeMap<(usize, usize), usize>,
    results: &mut Vec<Vec<Coords>>,
) -> (r: Option<Vec<(Coords, Vec<Coords>)>>)
    ensures
        r is Some == steady(height_map@, position),
        r is Some ==> (final(visited_positions)@, kid_views(r->0@), nested(final(results)@))
            == expand(
            height_map@,
            end,
            position,
            path@,
            0,
            old(visited_positions)@,
            Seq::empty(),
            nested(old(results)@),
        ),
{
    let accessible_positions = match try_find_accesible_squares(height_map, position) {
        Some(list) => list,
        None => {
            return None;
        },
    };
    let ghost h = height_map@;
    let ghost goal = expand(
        h,
        end,
        position,
        path@,
        0,
        visited_positions@,
        Seq::empty(),
        nested(results@),
    );
    let mut kids: Vec<(Coords, Vec<Coords>)> = Vec::new();
    assert(kid_views(kids@) =~= Seq::empty());
    let mut i: usize = 0;
    let mut looking = true;
    while looking && i < accessible_positions.len()
        invariant
            accessible_positions@ == accessible(h, position),
            0 <= i <= accessible_positions.len(),
            looking ==> goal == expand(
                h,
                end,
                position,
                path@,
                i as int,
                visited_positions@,
                kid_views(kids@),
                nested(results@),
            ),
            !looking ==> goal == (visited_positions@, kid_views(kids@), nested(results@)),
        decreases
                accessible_positions.len() - i + if looking {
                    1int
                } else {
                    0int
                },
    {
        let next = accessible_positions[i];
        if next == position {
            i += 1;
        } else {
            let mut longer = copy_path(path);
            longer.push(next);
            let known = match visited_positions.get(&(next.x, next.y)) {
                Some(path_length) => *path_length <= longer.len(),
                None => false,
            };
            if known {
                i += 1;
            } else {
                visited_positions.insert((next.x, next.y), longer.len());
                if next == end {
                    let ghost before = nested(results@);
                    let ghost added = longer@;
                    results.push(longer);
                    assert(nested(results@) =~= before.push(added));
                    looking = false;
                } else {
                    let ghost before = kid_views(kids@);
                    let ghost added = longer@;
                    kids.push((next, longer));
                    assert(kid_views(kids@) =~= before.push((next, added)));
                    i += 1;
                }
            }
        }
    }
    Some(kids)
}

/// Lets the ways wait to be taken up.
fn enqueue_all(queue: &mut Queue, kids: &Vec<(Coords, Vec<Coords>)>)
    ensures
        ways(final(queue)@) == enqueue(ways(old(queue)@), kid_views(kids@), 0),
{
    let ghost goal = enqueue(ways(queue@), kid_views(kids@), 0);
    let ghost all = kid_views(kids@);
    let mut i: usize = 0;
    while i < kids.len()
        invariant
            all == kid_views(kids@),
            0 <= i <= kids.len(),
            goal == enqueue(ways(queue@), all, i as int),
        decreases kids.len() - i,
    {
        let ghost waiting = ways(queue@);
        let position = kids[i].0;
        let path = copy_path(&kids[i].1);
        assert((position, path@) == all[i as int]);
        let key = (path.len(), position.x, position.y);
        if !queue.contains_key(&key) {
            let ghost added = path@;
            queue.insert(key, path);
            assert(ways(queue@) =~= waiting.insert(key, added));
        }
        i += 1;
    }
}

/// Looks for a way to `end`, if the steps from the squares that it comes to can be compared.
pub fn try_find_solution(height_map: HeightMap, start: Option<Coords>, end: Coords) -> (r: Option<
    Vec<Coords>,
>)
    ensures
        r is Some == solution(height_map@, start, end) is Some,
        r is Some ==> r->0@ == solution(height_map@, start, end)->0,
{
    let ghost h = height_map@;
    let mut visited_positions: BTreeMap<(usize, usize), usize> = BTreeMap::new();
    let mut queue: Queue = BTreeMap::new();
    match start {
        Some(p) => {
            queue.insert((0, p.x, p.y), Vec::new());
            assert(ways(queue@) =~= seeds(h, start));
        },
        None => {
            let ghost mut listed: int = 0;
            for entry in it: height_map.iter()
                invariant
                    h == height_map@,
                    it.seq().len() == h.dom().len(),
                    forall|j: int|
                        0 <= j < it.seq().len() ==> h.contains_key(*(#[trigger] it.seq()[j]).0)
                            && h[*it.seq()[j].0] == *it.seq()[j].1,
                    forall|k: (usize, usize)| #[trigger]
                        h.contains_key(k) ==> it.seq().contains((&k, &h[k])),
                    ways(queue@) == Map::new(
                        |k: (usize, usize, usize)|
                            k.0 == 0 && exists|j: int|
                                0 <= j < it.index() && *(#[trigger] it.seq()[j]).0 == (k.1, k.2)
                                    && *it.seq()[j].1 == 'a',
                        |k: (usize, usize, usize)| Seq::<Coords>::empty(),
                    ),
            {
                let (position, c) = entry;
                if *c == 'a' {
                    let ghost waiting = ways(queue@);
                    queue.insert((0, position.0, position.1), Vec::new());
                    assert(ways(queue@) =~= waiting.insert(
                        (0usize, position.0, position.1),
                        Seq::<Coords>::empty(),
                    ));
                }
                assert(ways(queue@) =~= Map::new(
                    |k: (usize, usize, usize)|
                        k.0 == 0 && exists|j: int|
                            0 <= j < it.index() + 1 && *(#[trigger] it.seq()[j]).0 == (k.1, k.2)
                                && *it.seq()[j].1 == 'a',
                    |k: (usize, usize, usize)| Seq::<Coords>::empty(),
                ));
            }
            assert(ways(queue@) =~= seeds(h, start));
        },
    }
    let mut results: Vec<Vec<Coords>> = Vec::new();
    assert(nested(results@) =~= Seq::<Seq<Coords>>::empty());
    let ghost first = outset(h, start);
    assert(ways(queue@).dom() =~= queue@.dom());
    let mut fuel: u128 = height_map.len() as u128 + queue.len() as u128;
    assert(fuel == budget(h, start));
    let mut going = true;
    while going && fuel > 0
        invariant
            h == height_map@,
            first == outset(h, start),
            going ==> run(h, end, first, budget(h, start)) == run(
                h,
                end,
                Search {
                    queue: ways(queue@),
                    visited: visited_positions@,
                    results: nested(results@),
                },
                fuel as nat,
            ),
            !going ==> run(h, end, first, budget(h, start)) == Some(
                Search {
                    queue: ways(queue@),
                    visited: visited_positions@,
                    results: nested(results@),
                },
            ),
        decreases
                fuel + if going {
                    1int
                } else {
                    0int
                },
    {
        let ghost now = Search {
            queue: ways(queue@),
            visited: visited_positions@,
            results: nested(results@),
        };
        match first_key(&queue) {
            None => {
                assert(idle(now.queue));
                going = false;
            },
            Some(key) => {
                proof {
                    assert(now.queue.dom().contains(key));
                    assert(is_least(now.queue, key));
                    let l = least(now.queue);
                    assert(is_least(now.queue, l));
                    assert(!earlier(l, key) && !earlier(key, l));
                    assert(l == key);
                }
                let ghost waiting = ways(queue@);
                let path = queue.remove(&key).unwrap();
                assert(ways(queue@) =~= waiting.remove(key));
                let position = Coords { x: key.1, y: key.2 };
                match expand_node(
                    &height_map,
                    end,
                    position,
                    &path,
                    &mut visited_positions,
                    &mut results,
                ) {
                    Some(kids) => {
                        enqueue_all(&mut queue, &kids);
                        fuel -= 1;
                    },
                    None => {
                        proof {
                            assert(!idle(now.queue));
                            assert(step(h, end, now) is None);
                            assert(run(h, end, now, fuel as nat) is None);
                        }
                        return None;
                    },
                }
            },
        }
    }
    if results.len() == 0 {
        return Some(Vec::new());
    }
    let ghost found = nested(results@);
    let mut best: usize = 0;
    let mut i: usize = 1;
    while i < results.len()
        invariant
            found == nested(results@),
            1 <= i <= results.len(),
            best == shortest(found, i as int),
            0 <= best < i,
        decreases results.len() - i,
    {
        assert(found[i as int] == results@[i as int]@);
        assert(found[best as int] == results@[best as int]@);
        if results[i].len() < results[best].len() {
            best = i;
        }
        i += 1;
    }
    assert(found[best as int] == results@[best as int]@);
    Some(copy_path(&results[best]))
}

/// Looks for a way to `end`.
pub fn find_solution(height_map: HeightMap, start: Option<Coords>, end: Coords) -> (r: Vec<Coords>)
    requires
        solution(height_map@, start, end) is Some,
    ensures
        r@ == solution(height_map@, start, end)->0,
{
    try_find_solution(height_map, start, end).unwrap()
}

/// The number of steps of the way found from the start, or from a square of height `a` where
/// `lowest`; 0 when no way is found.
pub open spec fn answer(input: Seq<char>, lowest: bool) -> Option<int> {
    match input_of(input) {
        Some((start, goal, h)) => match solution(
            h,
            if lowest {
                None
            } else {
                Some(start)
            },
            goal,
        ) {
            Some(way) => Some(way.len() as int),
            None => None,
        },
        None => None,
    }
}

fn steps(input: &str, lowest: bool) -> (r: Option<String>)
    ensures
        r is Some == answer(input@, lowest) is Some,
        r is Some ==> r->0@ == decimal(answer(input@, lowest)->0),
{
    let (start, goal, height_map) = match try_parse_input(input) {
        Some(parsed) => parsed,
        None => {
            return None;
        },
    };
    let from = if lowest {
        None
    } else {
        Some(start)
    };
    match try_find_solution(height_map, from, goal) {
        Some(solution) => Some(format_u64(solution.len() as u64)),
        None => None,
    }
}

/// The number of steps from the start to the goal, if the map can be read and walked.
pub fn try_puzzle_1(input: &str) -> (r: Option<String>)
    ensures
        r is Some == answer(input@, false) is Some,
        r is Some ==> r->0@ == decimal(answer(input@, false)->0),
{
    steps(input, false)
}

/// The number of steps from the start to the goal.
pub fn puzzle_1(input: &str) -> (r: String)
    requires
        answer(input@, false) is Some,
    ensures
        r@ == decimal(answer(input@, false)->0),
{
    steps(input, false).unwrap()
}

/// The number of steps from a lowest square to the goal, if the map can be read and walked.
pub fn try_puzzle_2(input: &str) -> (r: Option<String>)
    ensures
        r is Some == answer(input@, true) is Some,
        r is Some ==> r->0@ == decimal(answer(input@, true)->0),
{
    steps(input, true)
}

/// The number of steps from a lowest square to the goal.
pub fn puzzle_2(input: &str) -> (r: String)
    requires
        answer(input@, true) is Some,
    ensures
        r@ == decimal(answer(input@, true)->0),
{
    steps(input, true).unwrap()
}

} // verus!
