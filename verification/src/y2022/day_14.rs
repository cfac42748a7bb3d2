//! Regolith reservoir: sand pours from above into a cave with paths of rock.

use crate::number::{decimal, format_u64};
use crate::scan::{natural, read_natural, tag, tagged};
use crate::text::{chars, nested};
use vstd::prelude::*;

verus! {

/// A cut through the cave. What is solid is marked in `data`, row by row from the top; column
/// 0 of a row stands for `x == offset_x`.
#[derive(Debug)]
pub struct Cave {
    pub bottom_height: usize,
    pub offset_x: usize,
    pub data: Vec<Vec<bool>>,
}

/// What a cut through the cave holds: the height of the floor, the `x` of column 0, and for
/// each place whether it is solid, row by row from the top.
pub struct Cut {
    pub bottom: int,
    pub offset: int,
    pub cells: Seq<Seq<bool>>,
}

impl View for Cave {
    type V = Cut;

    open spec fn view(&self) -> Cut {
        Cut {
            bottom: self.bottom_height as int,
            offset: self.offset_x as int,
            cells: nested(self.data@),
        }
    }
}

impl Cut {
    /// Whether `(x, y)` is a place of the cut.
    pub open spec fn holds(self, x: int, y: int) -> bool {
        0 <= y < self.cells.len() && self.offset <= x < self.offset + self.cells[y].len()
    }

    /// Whether the place `(x, y)` of the cut is solid.
    pub open spec fn solid(self, x: int, y: int) -> bool {
        self.cells[y][x - self.offset]
    }

    /// The cut with the place `(x, y)` made solid.
    pub open spec fn with(self, x: int, y: int) -> Cut {
        Cut {
            bottom: self.bottom,
            offset: self.offset,
            cells: self.cells.update(y, self.cells[y].update(x - self.offset, true)),
        }
    }

    /// Whether the cut has the shape that a cave is given: the floor lies at a height from 2 to
    /// 500, there is a row for each height down to the floor, and each row reaches as far to
    /// both sides of `x == 500` as the floor lies deep.
    pub open spec fn shaped(self) -> bool {
        &&& 2 <= self.bottom <= 500
        &&& self.offset == 500 - self.bottom
        &&& self.cells.len() == self.bottom + 1
        &&& forall|y: int|
            0 <= y < self.cells.len() ==> (#[trigger] self.cells[y]).len() == 2 * self.bottom + 1
    }
}

impl Cave {
    /// Marks the place as solid.
    pub fn set_occupied(&mut self, x: usize, y: usize)
        requires
            old(self)@.holds(x as int, y as int),
        ensures
            final(self)@ == old(self)@.with(x as int, y as int),
    {
        let data_x = x - self.offset_x;
        let ghost before = nested(self.data@);
        assert(before[y as int] == self.data@[y as int]@);
        self.data[y][data_x] = true;
        assert(nested(self.data@) =~= before.update(
            y as int,
            before[y as int].update(data_x as int, true),
        )) by {
            assert(nested(self.data@)[y as int] == self.data@[y as int]@);
        }
    }

    /// Tells whether the place is solid.
    pub fn is_occupied(&self, x: usize, y: usize) -> (r: bool)
        requires
            self@.holds(x as int, y as int),
        ensures
            r == self@.solid(x as int, y as int),
    {
        let data_x = x - self.offset_x;
        assert(nested(self.data@)[y as int] == self.data@[y as int]@);
        self.data[y][data_x]
    }
}

/// The two numbers, the smaller one first.
pub fn get_range(start: usize, finish: usize) -> (r: (usize, usize))
    ensures
        r.0 <= r.1,
        (r.0 == start && r.1 == finish) || (r.0 == finish && r.1 == start),
{
    if start < finish {
        (start, finish)
    } else {
        (finish, start)
    }
}

/// The point written at position `from` as two numbers of at most 65535 with a comma between
/// them, and the position after it.
pub open spec fn point_at(s: Seq<char>, from: int) -> Option<((usize, usize), int)> {
    let x = natural(s, from, u16::MAX as int);
    let c = if x is Some {
        tagged(s, x.unwrap().1, ","@)
    } else {
        None
    };
    let y = if c is Some {
        natural(s, c.unwrap(), u16::MAX as int)
    } else {
        None
    };
    if y is Some {
        Some(((x.unwrap().0 as usize, y.unwrap().0 as usize), y.unwrap().1))
    } else {
        None
    }
}

/// The points that follow at position `from`, each after an arrow, added to `path`; and the
/// position after the last of them.
pub open spec fn more_points(s: Seq<char>, from: int, path: Seq<(usize, usize)>) -> (
    Seq<(usize, usize)>,
    int,
)
    decreases s.len() - from,
{
    let next = match tagged(s, from, " -> "@) {
        Some(a) => point_at(s, a),
        None => None,
    };
    match next {
        Some((p, to)) if from < to <= s.len() => more_points(s, to, path.push(p)),
        _ => (path, from),
    }
}

/// The path written at position `from`: a point, and more points with arrows between them.
pub open spec fn path_at(s: Seq<char>, from: int) -> Option<(Seq<(usize, usize)>, int)> {
    match point_at(s, from) {
        Some((p, to)) => Some(more_points(s, to, seq![p])),
        None => None,
    }
}

/// The paths that follow at position `from`, each after a line feed, added to `paths`.
pub open spec fn more_paths(s: Seq<char>, from: int, paths: Seq<Seq<(usize, usize)>>) -> Seq<
    Seq<(usize, usize)>,
>
    decreases s.len() - from,
{
    let next = if 0 <= from < s.len() && s[from] == '\n' {
        path_at(s, from + 1)
    } else {
        None
    };
    match next {
        Some((path, to)) if from < to <= s.len() => more_paths(s, to, paths.push(path)),
        _ => paths,
    }
}

/// The paths that `input` writes, one in each line, up to the first line that writes none.
/// `None` when the first line writes none.
pub open spec fn paths_of(input: Seq<char>) -> Option<Seq<Seq<(usize, usize)>>> {
    match path_at(input, 0) {
        Some((path, to)) => Some(more_paths(input, to, seq![path])),
        None => None,
    }
}

fn parse_point(v: &Vec<char>, from: usize) -> (r: Option<((usize, usize), usize)>)
    ensures
        r is Some == point_at(v@, from as int) is Some,
        r matches Some(p) ==> point_at(v@, from as int) == Some((p.0, p.1 as int)),
        r matches Some(p) ==> from < p.1 <= v.len() && (p.0).0 <= u16::MAX && (p.0).1 <= u16::MAX,
{
    let (x, a) = match read_natural(v, from, u16::MAX as u64) {
        Some(p) => p,
        None => {
            return None;
        },
    };
    let b = match tag(v, a, ",") {
        Some(b) => b,
        None => {
            return None;
        },
    };
    let (y, c) = match read_natural(v, b, u16::MAX as u64) {
        Some(p) => p,
        None => {
            return None;
        },
    };
    Some(((x as usize, y as usize), c))
}

/// Whether both numbers of every point are at most 65535.
pub open spec fn short(path: Seq<(usize, usize)>) -> bool {
    forall|i: int| 0 <= i < path.len() ==> (#[trigger] path[i]).0 <= u16::MAX && path[i].1 <= u16::MAX
}

fn parse_path(v: &Vec<char>, from: usize) -> (r: Option<(Vec<(usize, usize)>, usize)>)
    ensures
        r is Some == path_at(v@, from as int) is Some,
        r matches Some(p) ==> path_at(v@, from as int) == Some((p.0@, p.1 as int)),
        r matches Some(p) ==> from < p.1 <= v.len() && short(p.0@) && p.0.len() > 0,
{
    let (first, start) = match parse_point(v, from) {
        Some(p) => p,
        None => {
            return None;
        },
    };
    let mut path: Vec<(usize, usize)> = Vec::new();
    path.push(first);
    assert(path@ =~= seq![first]);
    let mut at: usize = start;
    let mut more = true;
    while more
        invariant
            from < at <= v.len(),
            short(path@),
            path.len() > 0,
            more ==> more_points(v@, start as int, seq![first]) == more_points(v@, at as int, path@),
            !more ==> more_points(v@, start as int, seq![first]) == (path@, at as int),
        decreases
                v.len() - at + if more {
                    1int
                } else {
                    0int
                },
    {
        let next = match tag(v, at, " -> ") {
            Some(a) => parse_point(v, a),
            None => None,
        };
        match next {
            Some((p, to)) => {
                path.push(p);
                at = to;
            },
            None => {
                more = false;
            },
        }
    }
    Some((path, at))
}

/// Whether the paths hold no point with a number above 65535, and each holds a point.
pub open spec fn tidy(paths: Seq<Seq<(usize, usize)>>) -> bool {
    forall|i: int| 0 <= i < paths.len() ==> short(#[trigger] paths[i]) && paths[i].len() > 0
}

/// Reads the paths, if the first line writes one.
pub fn try_parse_paths(input: &str) -> (r: Option<Vec<Vec<(usize, usize)>>>)
    ensures
        r is Some == paths_of(input@) is Some,
        r is Some ==> nested(r->0@) == paths_of(input@)->0 && tidy(nested(r->0@)) && r->0.len()
            > 0,
{
    let v = chars(input);
    let (first, start) = match parse_path(&v, 0) {
        Some(p) => p,
        None => {
            return None;
        },
    };
    let ghost head = first@;
    let mut paths: Vec<Vec<(usize, usize)>> = Vec::new();
    paths.push(first);
    assert(nested(paths@) =~= seq![head]);
    let mut at: usize = start;
    let mut more = true;
    while more
        invariant
            v@ == input@,
            0 < at <= v.len(),
            tidy(nested(paths@)),
            paths.len() > 0,
            more ==> more_paths(v@, start as int, seq![head]) == more_paths(
                v@,
                at as int,
                nested(paths@),
            ),
            !more ==> more_paths(v@, start as int, seq![head]) == nested(paths@),
        decreases
                v.len() - at + if more {
                    1int
                } else {
                    0int
                },
    {
        let next = if at < v.len() && v[at] == '\n' {
            parse_path(&v, at + 1)
        } else {
            None
        };
        match next {
            Some((path, to)) => {
                let ghost before = nested(paths@);
                let ghost added = path@;
                paths.push(path);
                assert(nested(paths@) =~= before.push(added));
                at = to;
            },
            None => {
                more = false;
            },
        }
    }
    Some(paths)
}

/// The smaller of two numbers.
pub open spec fn low(a: int, b: int) -> int {
    if a < b {
        a
    } else {
        b
    }
}

/// The larger of two numbers.
pub open spec fn high(a: int, b: int) -> int {
    if a < b {
        b
    } else {
        a
    }
}

/// Whether the place `(x, y)` lies on the line of rock drawn from `a` to `b`. Where the two
/// differ in `x`, the line runs at the height of `a` from the one `x` to the other; where they
/// differ in `y` only, it runs straight down or up; from a point to itself there is no rock.
pub open spec fn on_segment(a: (usize, usize), b: (usize, usize), x: int, y: int) -> bool {
    if a.0 != b.0 {
        y == a.1 && low(a.0 as int, b.0 as int) <= x <= high(a.0 as int, b.0 as int)
    } else if a.1 != b.1 {
        x == a.0 && low(a.1 as int, b.1 as int) <= y <= high(a.1 as int, b.1 as int)
    } else {
        false
    }
}

/// Whether the place lies on the line from point `i` of path `p` to the next point.
pub open spec fn drawn(paths: Seq<Seq<(usize, usize)>>, p: int, i: int, x: int, y: int) -> bool {
    0 <= p < paths.len() && 0 <= i < paths[p].len() - 1 && on_segment(
        paths[p][i],
        paths[p][i + 1],
        x,
        y,
    )
}

/// Whether the place is rock.
pub open spec fn rock(paths: Seq<Seq<(usize, usize)>>, x: int, y: int) -> bool {
    exists|p: int, i: int| #[trigger] drawn(paths, p, i, x, y)
}

/// Whether the place lies on a line that comes before the line from point `i0` of path `p0`.
pub open spec fn rock_before(paths: Seq<Seq<(usize, usize)>>, p0: int, i0: int, x: int, y: int) -> bool {
    exists|p: int, i: int| #[trigger] drawn(paths, p, i, x, y) && (p < p0 || (p == p0 && i < i0))
}

/// Whether `m` is the largest `y` of a point of the paths.
pub open spec fn is_deepest(paths: Seq<Seq<(usize, usize)>>, m: int) -> bool {
    &&& exists|p: int, i: int|
        0 <= p < paths.len() && 0 <= i < paths[p].len() && (#[trigger] paths[p][i]).1 == m
    &&& forall|p: int, i: int|
        0 <= p < paths.len() && 0 <= i < paths[p].len() ==> (#[trigger] paths[p][i]).1 <= m
}

/// The largest `y` of a point of the paths.
pub open spec fn deepest(paths: Seq<Seq<(usize, usize)>>) -> int {
    choose|m: int| is_deepest(paths, m)
}

/// Whether the line from `a` to `b` lies in a cut whose floor is at height `bottom`.
pub open spec fn segment_fits(a: (usize, usize), b: (usize, usize), bottom: int) -> bool {
    if a.0 != b.0 {
        500 - bottom <= low(a.0 as int, b.0 as int) && high(a.0 as int, b.0 as int) <= 500 + bottom
    } else if a.1 != b.1 {
        500 - bottom <= a.0 <= 500 + bottom
    } else {
        true
    }
}

/// Whether all lines of rock lie in a cut whose floor is at height `bottom`.
pub open spec fn paths_fit(paths: Seq<Seq<(usize, usize)>>, bottom: int) -> bool {
    forall|p: int, i: int|
        0 <= p < paths.len() && 0 <= i < paths[p].len() - 1 ==> segment_fits(
            #[trigger] paths[p][i],
            paths[p][i + 1],
            bottom,
        )
}

/// Whether the cut shows the rock of the paths and nothing else, with its floor two below the
/// deepest point.
pub open spec fn shows(cut: Cut, paths: Seq<Seq<(usize, usize)>>) -> bool {
    &&& cut.shaped()
    &&& cut.bottom == deepest(paths) + 2
    &&& forall|x: int, y: int| cut.holds(x, y) ==> (#[trigger] cut.solid(x, y) == rock(paths, x, y))
}

/// Whether the paths can be drawn: the deepest point lies at 498 at most, and the rock does
/// not reach further to the sides than the floor lies deep.
pub open spec fn drawable(paths: Seq<Seq<(usize, usize)>>) -> bool {
    deepest(paths) + 2 <= 500 && paths_fit(paths, deepest(paths) + 2)
}

/// The largest `y` of a point of the paths.
fn max_y(paths: &Vec<Vec<(usize, usize)>>) -> (m: usize)
    requires
        tidy(nested(paths@)),
        paths.len() > 0,
    ensures
        is_deepest(nested(paths@), m as int),
        m == deepest(nested(paths@)),
{
    let ghost all = nested(paths@);
    assert(forall|p: int| 0 <= p < paths.len() ==> #[trigger] all[p] == paths@[p]@);
    assert(all[0].len() > 0);
    let mut m: usize = paths[0][0].1;
    let ghost mut wp: int = 0;
    let ghost mut wi: int = 0;
    let mut p: usize = 0;
    while p < paths.len()
        invariant
            all == nested(paths@),
            forall|q: int| 0 <= q < paths.len() ==> #[trigger] all[q] == paths@[q]@,
            0 <= p <= paths.len(),
            0 <= wp < paths.len() && 0 <= wi < all[wp].len() && all[wp][wi].1 == m,
            forall|q: int, i: int| 0 <= q < p && 0 <= i < all[q].len() ==> (#[trigger] all[q][i]).1 <= m,
        decreases paths.len() - p,
    {
        let path = &paths[p];
        let mut i: usize = 0;
        while i < path.len()
            invariant
                all == nested(paths@),
                forall|q: int| 0 <= q < paths.len() ==> #[trigger] all[q] == paths@[q]@,
                0 <= p < paths.len(),
                path@ == all[p as int],
                0 <= i <= path.len(),
                0 <= wp < paths.len() && 0 <= wi < all[wp].len() && all[wp][wi].1 == m,
                forall|q: int, j: int|
                    0 <= q < p && 0 <= j < all[q].len() ==> (#[trigger] all[q][j]).1 <= m,
                forall|j: int| 0 <= j < i ==> (#[trigger] all[p as int][j]).1 <= m,
            decreases path.len() - i,
        {
            if path[i].1 > m {
                m = path[i].1;
                proof {
                    wp = p as int;
                    wi = i as int;
                }
            }
            i += 1;
        }
        p += 1;
    }
    assert(is_deepest(all, m as int));
    assert(is_deepest(all, deepest(all)));
    m
}

/// Where a line ends, the next line of the path begins.
proof fn lemma_rock_next_segment(paths: Seq<Seq<(usize, usize)>>, p: int, i: int, x: int, y: int)
    ensures
        rock_before(paths, p, i + 1, x, y) <==> (rock_before(paths, p, i, x, y) || drawn(
            paths,
            p,
            i,
            x,
            y,
        )),
{
    if rock_before(paths, p, i + 1, x, y) {
        let (q, j) = choose|q: int, j: int| #[trigger]
            drawn(paths, q, j, x, y) && (q < p || (q == p && j < i + 1));
        assert(drawn(paths, q, j, x, y));
    }
    if rock_before(paths, p, i, x, y) {
        let (q, j) = choose|q: int, j: int| #[trigger]
            drawn(paths, q, j, x, y) && (q < p || (q == p && j < i));
        assert(drawn(paths, q, j, x, y));
    }
}

/// Where a path ends, the next path begins.
proof fn lemma_rock_next_path(paths: Seq<Seq<(usize, usize)>>, p: int, i: int, x: int, y: int)
    requires
        0 <= p < paths.len(),
        i >= paths[p].len() - 1,
    ensures
        rock_before(paths, p, i, x, y) <==> rock_before(paths, p + 1, 0, x, y),
{
    if rock_before(paths, p, i, x, y) {
        let (q, j) = choose|q: int, j: int| #[trigger]
            drawn(paths, q, j, x, y) && (q < p || (q == p && j < i));
        assert(drawn(paths, q, j, x, y));
    }
    if rock_before(paths, p + 1, 0, x, y) {
        let (q, j) = choose|q: int, j: int| #[trigger]
            drawn(paths, q, j, x, y) && (q < p + 1 || (q == p + 1 && j < 0));
        assert(drawn(paths, q, j, x, y));
    }
}

/// After the last path all rock has been drawn.
proof fn lemma_rock_all(paths: Seq<Seq<(usize, usize)>>, x: int, y: int)
    ensures
        rock_before(paths, paths.len() as int, 0, x, y) <==> rock(paths, x, y),
{
    if rock_before(paths, paths.len() as int, 0, x, y) {
        let (q, j) = choose|q: int, j: int| #[trigger]
            drawn(paths, q, j, x, y) && (q < paths.len() || (q == paths.len() && j < 0));
        assert(drawn(paths, q, j, x, y));
    }
    if rock(paths, x, y) {
        let (q, j) = choose|q: int, j: int| #[trigger] drawn(paths, q, j, x, y);
        assert(drawn(paths, q, j, x, y));
    }
}

/// Draws the line of rock from `start` to `finish`.
fn draw_segment(map: &mut Cave, start: (usize, usize), finish: (usize, usize))
    requires
        old(map)@.shaped(),
        segment_fits(start, finish, old(map)@.bottom),
        start.1 < old(map)@.bottom,
        finish.1 < old(map)@.bottom,
    ensures
        final(map)@.shaped(),
        final(map)@.bottom == old(map)@.bottom,
        forall|x: int, y: int|
            old(map)@.holds(x, y) ==> (#[trigger] final(map)@.solid(x, y) == (old(map)@.solid(
                x,
                y,
            ) || on_segment(start, finish, x, y))),
{
    let ghost before = map@;
    if start.0 != finish.0 {
        let (lo, hi) = get_range(start.0, finish.0);
        let mut x: usize = lo;
        while x <= hi
            invariant
                before.shaped(),
                map@.shaped(),
                map@.bottom == before.bottom,
                500 - before.bottom <= lo <= x <= hi + 1,
                hi <= 500 + before.bottom,
                start.1 < before.bottom,
                forall|a: int, b: int|
                    before.holds(a, b) ==> (#[trigger] map@.solid(a, b) == (before.solid(a, b) || (b
                        == start.1 && lo <= a < x))),
            decreases hi + 1 - x,
        {
            let ghost prior = map@;
            map.set_occupied(x, start.1);
            assert forall|a: int, b: int| before.holds(a, b) implies (#[trigger] map@.solid(a, b) == (
            before.solid(a, b) || (b == start.1 && lo <= a < x + 1))) by {
                assert(prior.solid(a, b) == (before.solid(a, b) || (b == start.1 && lo <= a < x)));
            }
            x += 1;
        }
        return ;
    }
    if start.1 != finish.1 {
        let (lo, hi) = get_range(start.1, finish.1);
        let mut y: usize = lo;
        while y <= hi
            invariant
                before.shaped(),
                map@.shaped(),
                map@.bottom == before.bottom,
                500 - before.bottom <= start.0 <= 500 + before.bottom,
                lo <= y <= hi + 1,
                hi < before.bottom,
                forall|a: int, b: int|
                    before.holds(a, b) ==> (#[trigger] map@.solid(a, b) == (before.solid(a, b) || (a
                        == start.0 && lo <= b < y))),
            decreases hi + 1 - y,
        {
            let ghost prior = map@;
            map.set_occupied(start.0, y);
            assert forall|a: int, b: int| before.holds(a, b) implies (#[trigger] map@.solid(a, b) == (
            before.solid(a, b) || (a == start.0 && lo <= b < y + 1))) by {
                assert(prior.solid(a, b) == (before.solid(a, b) || (a == start.0 && lo <= b < y)));
            }
            y += 1;
        }
    }
}

/// Tells whether the line from `a` to `b` lies in a cut whose floor is at height `bottom`.
fn fits(a: (usize, usize), b: (usize, usize), bottom: usize) -> (r: bool)
    requires
        bottom <= 500,
    ensures
        r == segment_fits(a, b, bottom as int),
{
    if a.0 != b.0 {
        let (lo, hi) = get_range(a.0, b.0);
        500 - bottom <= lo && hi <= 500 + bottom
    } else if a.1 != b.1 {
        500 - bottom <= a.0 && a.0 <= 500 + bottom
    } else {
        true
    }
}

/// The cut that shows the rock of the paths, with its floor two below the deepest point.
pub open spec fn cut_of(paths: Seq<Seq<(usize, usize)>>) -> Cut {
    let bottom = deepest(paths) + 2;
    Cut {
        bottom,
        offset: 500 - bottom,
        cells: Seq::new(
            (bottom + 1) as nat,
            |y: int| Seq::new((2 * bottom + 1) as nat, |i: int| rock(paths, 500 - bottom + i, y)),
        ),
    }
}

/// There is one cut that shows the paths.
pub proof fn lemma_shows_one_cut(cut: Cut, paths: Seq<Seq<(usize, usize)>>)
    requires
        shows(cut, paths),
    ensures
        cut == cut_of(paths),
{
    let other = cut_of(paths);
    assert forall|y: int| 0 <= y < cut.cells.len() implies #[trigger] cut.cells[y] == other.cells[y] by {
        assert forall|i: int| 0 <= i < cut.cells[y].len() implies #[trigger] cut.cells[y][i]
            == other.cells[y][i] by {
            assert(cut.holds(cut.offset + i, y));
            assert(cut.solid(cut.offset + i, y) == rock(paths, cut.offset + i, y));
        }
        assert(cut.cells[y] =~= other.cells[y]);
    }
    assert(cut.cells =~= other.cells);
}

/// Draws the cave, if `input` writes paths that can be drawn.
pub fn try_parse_input(input: &str) -> (r: Option<Cave>)
    ensures
        r is Some == (paths_of(input@) is Some && drawable(paths_of(input@)->0)),
        r is Some ==> r->0@ == cut_of(paths_of(input@)->0) && r->0@.shaped(),
{
    let result = match try_parse_paths(input) {
        Some(paths) => paths,
        None => {
            return None;
        },
    };
    let ghost paths = nested(result@);
    assert(forall|p: int| 0 <= p < result.len() ==> #[trigger] paths[p] == result@[p]@);
    let deep = max_y(&result);
    if deep > 498 {
        return None;
    }
    let bottom_height = deep + 2;
    let offset_x = 500 - bottom_height;
    let mut data: Vec<Vec<bool>> = Vec::new();
    let mut y: usize = 0;
    while y <= bottom_height
        invariant
            bottom_height <= 500,
            0 <= y <= bottom_height + 1,
            data.len() == y,
            forall|b: int| 0 <= b < y ==> (#[trigger] data@[b])@.len() == 2 * bottom_height + 1,
            forall|b: int, a: int| 0 <= b < y && 0 <= a < 2 * bottom_height + 1 ==> !(#[trigger] data@[b]@[a]),
        decreases bottom_height + 1 - y,
    {
        let mut row: Vec<bool> = Vec::new();
        let mut x: usize = 0;
        while x < 2 * bottom_height + 1
            invariant
                bottom_height <= 500,
                0 <= x <= 2 * bottom_height + 1,
                row.len() == x,
                forall|a: int| 0 <= a < x ==> !(#[trigger] row@[a]),
            decreases 2 * bottom_height + 1 - x,
        {
            row.push(false);
            x += 1;
        }
        data.push(row);
        y += 1;
    }
    let mut output_map = Cave { bottom_height, offset_x, data };
    assert(output_map@.shaped()) by {
        assert(forall|b: int|
            0 <= b < output_map.data@.len() ==> #[trigger] nested(output_map.data@)[b]
                == output_map.data@[b]@);
    }
    assert forall|x: int, y: int| output_map@.holds(x, y) implies (#[trigger] output_map@.solid(x, y)
        == rock_before(paths, 0, 0, x, y)) by {
        assert(nested(output_map.data@)[y] == output_map.data@[y]@);
        if rock_before(paths, 0, 0, x, y) {
            let (q, j) = choose|q: int, j: int| #[trigger]
                drawn(paths, q, j, x, y) && (q < 0 || (q == 0 && j < 0));
            assert(drawn(paths, q, j, x, y));
        }
    }
    let mut p: usize = 0;
    while p < result.len()
        invariant
            paths == nested(result@),
            tidy(paths),
            forall|q: int| 0 <= q < result.len() ==> #[trigger] paths[q] == result@[q]@,
            is_deepest(paths, deep as int),
            paths_of(input@) == Some(paths),
            deep == deepest(paths),
            bottom_height == deep + 2,
            0 <= p <= result.len(),
            output_map@.shaped(),
            output_map@.bottom == bottom_height,
            forall|q: int, i: int|
                0 <= q < p && 0 <= i < paths[q].len() - 1 ==> segment_fits(
                    #[trigger] paths[q][i],
                    paths[q][i + 1],
                    bottom_height as int,
                ),
            forall|x: int, y: int|
                output_map@.holds(x, y) ==> (#[trigger] output_map@.solid(x, y) == rock_before(
                    paths,
                    p as int,
                    0,
                    x,
                    y,
                )),
        decreases result.len() - p,
    {
        let path = &result[p];
        assert(paths[p as int].len() > 0);
        let mut i: usize = 0;
        while i + 1 < path.len()
            invariant
                paths == nested(result@),
                tidy(paths),
                is_deepest(paths, deep as int),
                paths_of(input@) == Some(paths),
                deep == deepest(paths),
                bottom_height == deep + 2,
                0 <= p < result.len(),
                path@ == paths[p as int],
                0 <= i < path.len(),
                output_map@.shaped(),
                output_map@.bottom == bottom_height,
                forall|q: int, j: int|
                    0 <= q < p && 0 <= j < paths[q].len() - 1 ==> segment_fits(
                        #[trigger] paths[q][j],
                        paths[q][j + 1],
                        bottom_height as int,
                    ),
                forall|j: int|
                    0 <= j < i ==> segment_fits(
                        #[trigger] paths[p as int][j],
                        paths[p as int][j + 1],
                        bottom_height as int,
                    ),
                forall|x: int, y: int|
                    output_map@.holds(x, y) ==> (#[trigger] output_map@.solid(x, y) == rock_before(
                        paths,
                        p as int,
                        i as int,
                        x,
                        y,
                    )),
            decreases path.len() - i,
        {
            let start = path[i];
            let finish = path[i + 1];
            assert(start == paths[p as int][i as int] && finish == paths[p as int][i + 1]);
            if !fits(start, finish, bottom_height) {
                assert(!segment_fits(
                    paths[p as int][i as int],
                    paths[p as int][i + 1],
                    deepest(paths) + 2,
                ));
                assert(!paths_fit(paths, deepest(paths) + 2));
                return None;
            }
            let ghost prior = output_map@;
            draw_segment(&mut output_map, start, finish);
            assert forall|x: int, y: int| output_map@.holds(x, y) implies (
            #[trigger] output_map@.solid(x, y) == rock_before(paths, p as int, i + 1, x, y)) by {
                lemma_rock_next_segment(paths, p as int, i as int, x, y);
                assert(prior.holds(x, y));
                assert(prior.solid(x, y) == rock_before(paths, p as int, i as int, x, y));
            }
            i += 1;
        }
        assert forall|x: int, y: int| output_map@.holds(x, y) implies (#[trigger] output_map@.solid(
            x,
            y,
        ) == rock_before(paths, p + 1, 0, x, y)) by {
            lemma_rock_next_path(paths, p as int, i as int, x, y);
        }
        p += 1;
    }
    assert forall|x: int, y: int| output_map@.holds(x, y) implies (#[trigger] output_map@.solid(x, y)
        == rock(paths, x, y)) by {
        lemma_rock_all(paths, x, y);
    }
    proof {
        lemma_shows_one_cut(output_map@, paths);
    }
    Some(output_map)
}

/// Draws the cave.
pub fn parse_input(input: &str) -> (r: Cave)
    requires
        paths_of(input@) is Some,
        drawable(paths_of(input@)->0),
    ensures
        r@ == cut_of(paths_of(input@)->0),
        r@.shaped(),
{
    try_parse_input(input).unwrap()
}

impl Cut {
    /// Whether a unit of sand that pours in at `(500, 0)` can come to `(x, y)`: with each step
    /// down it moves at most one step to the side, and it does not come as deep as the floor.
    pub open spec fn reachable(self, x: int, y: int) -> bool {
        0 <= y < self.bottom && 500 - y <= x <= 500 + y
    }

    /// Where a unit of sand at `(x, y)` moves next: one step down if the place below is free,
    /// else one step down and to the left, else one step down and to the right; it stays where
    /// it is if all three are solid.
    pub open spec fn step(self, x: int, y: int) -> (int, int) {
        if !self.solid(x, y + 1) {
            (x, y + 1)
        } else if !self.solid(x - 1, y + 1) {
            (x - 1, y + 1)
        } else if !self.solid(x + 1, y + 1) {
            (x + 1, y + 1)
        } else {
            (x, y)
        }
    }

    /// Where a unit of sand at `(x, y)` comes to rest. With a floor it rests on the floor at
    /// the latest; without one it falls out of the cut once it reaches the height of the floor,
    /// which `None` stands for.
    pub open spec fn rest(self, x: int, y: int, has_floor: bool) -> Option<(int, int)>
        decreases self.bottom - y,
    {
        let f = self.step(x, y);
        if y >= self.bottom {
            None
        } else if f == (x, y) {
            Some((x, y))
        } else if has_floor && f.1 == self.bottom {
            Some((x, y))
        } else if !has_floor && f.1 >= self.bottom {
            None
        } else {
            self.rest(f.0, f.1, has_floor)
        }
    }
}

/// Sand comes to rest at a place that it can reach and that was free, unless it is the place
/// where it pours in. Only without a floor does it fall out.
pub proof fn lemma_rest(cut: Cut, x: int, y: int, has_floor: bool)
    requires
        cut.shaped(),
        cut.reachable(x, y),
        (x == 500 && y == 0) || !cut.solid(x, y),
    ensures
        match cut.rest(x, y, has_floor) {
            Some(p) => cut.reachable(p.0, p.1) && ((p.0 == 500 && p.1 == 0) || !cut.solid(p.0, p.1))
                && p.1 >= y && (p.1 == y ==> p.0 == x && (cut.step(x, y) == (x, y) || (has_floor && y
                == cut.bottom - 1))),
            None => !has_floor,
        },
    decreases cut.bottom - y,
{
    let f = cut.step(x, y);
    if f != (x, y) && f.1 < cut.bottom {
        lemma_rest(cut, f.0, f.1, has_floor);
    }
}

/// Where a unit of sand moves next.
pub fn sand_fall(map: &Cave, coords: (usize, usize)) -> (r: (usize, usize))
    requires
        map@.shaped(),
        map@.reachable(coords.0 as int, coords.1 as int),
    ensures
        (r.0 as int, r.1 as int) == map@.step(coords.0 as int, coords.1 as int),
{
    let (x, y) = coords;
    assert(map@.cells[y + 1].len() == 2 * map@.bottom + 1);
    if !map.is_occupied(x, y + 1) {
        return (x, y + 1);
    }
    if !map.is_occupied(x - 1, y + 1) {
        return (x - 1, y + 1);
    }
    if !map.is_occupied(x + 1, y + 1) {
        return (x + 1, y + 1);
    }
    (x, y)
}

/// Lets one unit of sand pour in at `(500, 0)` and marks the place where it comes to rest.
/// Tells whether the pouring is over: without a floor when the unit falls out of the cut, with
/// a floor when it rests where it pours in.
pub fn pour_sand(map: &mut Cave, has_floor: bool) -> (r: bool)
    requires
        old(map)@.shaped(),
    ensures
        final(map)@.shaped(),
        match old(map)@.rest(500, 0, has_floor) {
            Some(p) => final(map)@ == old(map)@.with(p.0, p.1) && r == (has_floor && p.1 < 1),
            None => final(map)@ == old(map)@ && r,
        },
{
    let ghost start = map@;
    let mut coord: (usize, usize) = (500, 0);
    loop
        invariant
            map@ == start,
            start == old(map)@,
            start.shaped(),
            start.reachable(coord.0 as int, coord.1 as int),
            start.rest(500, 0, has_floor) == start.rest(coord.0 as int, coord.1 as int, has_floor),
        decreases start.bottom - coord.1,
    {
        let fallen_coord = sand_fall(map, coord);
        if coord.0 == fallen_coord.0 && coord.1 == fallen_coord.1 {
            assert(start.cells[coord.1 as int].len() == 2 * start.bottom + 1);
            map.set_occupied(coord.0, coord.1);
            proof {
                lemma_with_shaped(start, coord.0 as int, coord.1 as int);
            }
            return has_floor && coord.1 < 1;
        }
        if has_floor && fallen_coord.1 == map.bottom_height {
            assert(start.cells[coord.1 as int].len() == 2 * start.bottom + 1);
            map.set_occupied(coord.0, coord.1);
            proof {
                lemma_with_shaped(start, coord.0 as int, coord.1 as int);
            }
            return false;
        }
        if !has_floor && fallen_coord.1 >= map.bottom_height {
            return true;
        }
        coord = fallen_coord;
    }
}

/// A cut keeps its shape when a place is made solid.
pub proof fn lemma_with_shaped(cut: Cut, x: int, y: int)
    requires
        cut.shaped(),
        cut.holds(x, y),
    ensures
        cut.with(x, y).shaped(),
{
    let next = cut.with(x, y);
    assert forall|b: int| 0 <= b < next.cells.len() implies (#[trigger] next.cells[b]).len() == 2
        * next.bottom + 1 by {
        if b != y {
            assert(next.cells[b] == cut.cells[b]);
        }
    }
}

/// How many of the first `n` places of a row are free.
pub open spec fn free_in(row: Seq<bool>, n: int) -> int
    decreases n,
{
    if n <= 0 {
        0
    } else {
        free_in(row, n - 1) + if row[n - 1] {
            0int
        } else {
            1int
        }
    }
}

/// How many places of the first `n` rows are free.
pub open spec fn free(cells: Seq<Seq<bool>>, n: int) -> int
    decreases n,
{
    if n <= 0 {
        0
    } else {
        free(cells, n - 1) + free_in(cells[n - 1], cells[n - 1].len() as int)
    }
}

/// A row has one free place less when a free place is made solid.
pub proof fn lemma_free_in_update(row: Seq<bool>, x: int, n: int)
    requires
        0 <= x < row.len(),
        !row[x],
        0 <= n <= row.len(),
    ensures
        0 <= free_in(row.update(x, true), n) <= n,
        free_in(row.update(x, true), n) == free_in(row, n) - if x < n {
            1int
        } else {
            0int
        },
    decreases n,
{
    if n > 0 {
        lemma_free_in_update(row, x, n - 1);
    }
}

/// The rows have one free place less when a free place is made solid.
pub proof fn lemma_free_update(cells: Seq<Seq<bool>>, x: int, y: int, n: int)
    requires
        0 <= y < cells.len(),
        0 <= x < cells[y].len(),
        !cells[y][x],
        0 <= n <= cells.len(),
    ensures
        0 <= free(cells.update(y, cells[y].update(x, true)), n),
        free(cells.update(y, cells[y].update(x, true)), n) == free(cells, n) - if y < n {
            1int
        } else {
            0int
        },
    decreases n,
{
    lemma_free_bound(cells.update(y, cells[y].update(x, true)), n);
    if n > 0 {
        lemma_free_update(cells, x, y, n - 1);
        if y == n - 1 {
            lemma_free_in_update(cells[y], x, cells[y].len() as int);
        }
    }
}

/// There are no more free places than places.
pub proof fn lemma_free_in_bound(row: Seq<bool>, n: int)
    requires
        0 <= n,
    ensures
        0 <= free_in(row, n) <= n,
    decreases n,
{
    if n > 0 {
        lemma_free_in_bound(row, n - 1);
    }
}

/// The number of free places is not negative.
pub proof fn lemma_free_bound(cells: Seq<Seq<bool>>, n: int)
    requires
        0 <= n <= cells.len(),
    ensures
        0 <= free(cells, n),
        (forall|y: int| 0 <= y < cells.len() ==> (#[trigger] cells[y]).len() <= 1001) ==> free(cells, n)
            <= n * 1001,
    decreases n,
{
    if n > 0 {
        lemma_free_bound(cells, n - 1);
        lemma_free_in_bound(cells[n - 1], cells[n - 1].len() as int);
    }
}

/// How many units of sand come to rest before the pouring is over. `None` when it is never
/// over: without a floor, when a unit rests where the sand pours in.
pub open spec fn units(cut: Cut, has_floor: bool) -> Option<int>
    decreases free(cut.cells, cut.cells.len() as int),
{
    if !cut.shaped() {
        None
    } else {
        match cut.rest(500, 0, has_floor) {
            None => Some(0),
            Some(p) => if has_floor && p.1 < 1 {
                Some(0)
            } else if p.0 == 500 && p.1 == 0 {
                None
            } else {
                proof {
                    lemma_rest(cut, 500, 0, has_floor);
                    lemma_free_update(cut.cells, p.0 - cut.offset, p.1, cut.cells.len() as int);
                }
                match units(cut.with(p.0, p.1), has_floor) {
                    Some(n) => Some(n + 1),
                    None => None,
                }
            },
        }
    }
}

/// Pours sand until the pouring is over and counts the units that come to rest before.
pub fn pour_all(map: &mut Cave, has_floor: bool) -> (r: Option<u64>)
    requires
        old(map)@.shaped(),
    ensures
        r is Some == units(old(map)@, has_floor) is Some,
        r is Some ==> r->0 == units(old(map)@, has_floor)->0,
        r is Some ==> r->0 <= 501501,
{
    let ghost start = map@;
    let mut count: u64 = 0;
    proof {
        lemma_free_bound(start.cells, start.cells.len() as int);
    }
    loop
        invariant
            map@.shaped(),
            start == old(map)@,
            units(start, has_floor) == match units(map@, has_floor) {
                Some(n) => Some(n + count),
                None => None,
            },
            0 <= free(map@.cells, map@.cells.len() as int),
            count + free(map@.cells, map@.cells.len() as int) <= 501501,
        decreases free(map@.cells, map@.cells.len() as int),
    {
        let ghost before = map@;
        proof {
            lemma_rest(before, 500, 0, has_floor);
        }
        let first = sand_fall(map, (500, 0));
        if !has_floor && first.0 == 500 && first.1 == 0 {
            return None;
        }
        if pour_sand(map, has_floor) {
            return Some(count);
        }
        proof {
            let p = before.rest(500, 0, has_floor)->0;
            lemma_free_update(before.cells, p.0 - before.offset, p.1, before.cells.len() as int);
        }
        count += 1;
    }
}

/// The number of units of sand that come to rest before one falls out.
pub open spec fn answer_1(input: Seq<char>) -> Option<int> {
    match paths_of(input) {
        Some(paths) if drawable(paths) => units(cut_of(paths), false),
        _ => None,
    }
}

/// The number of units of sand that come to rest on a floor, the last one where the sand pours
/// in.
pub open spec fn answer_2(input: Seq<char>) -> Option<int> {
    match paths_of(input) {
        Some(paths) if drawable(paths) => match units(cut_of(paths), true) {
            Some(n) => Some(n + 1),
            None => None,
        },
        _ => None,
    }
}

/// The number of units of sand that come to rest before one falls out, if that happens.
pub fn try_puzzle_1(input: &str) -> (r: Option<String>)
    ensures
        r is Some == answer_1(input@) is Some,
        r is Some ==> r->0@ == decimal(answer_1(input@)->0),
{
    let mut map = match try_parse_input(input) {
        Some(map) => map,
        None => {
            return None;
        },
    };
    match pour_all(&mut map, false) {
        Some(count) => Some(format_u64(count)),
        None => None,
    }
}

/// The number of units of sand that come to rest before one falls out.
pub fn puzzle_1(input: &str) -> (r: String)
    requires
        answer_1(input@) is Some,
    ensures
        r@ == decimal(answer_1(input@)->0),
{
    try_puzzle_1(input).unwrap()
}

/// The number of units of sand that come to rest on a floor, if the paths can be drawn.
pub fn try_puzzle_2(input: &str) -> (r: Option<String>)
    ensures
        r is Some == answer_2(input@) is Some,
        r is Some ==> r->0@ == decimal(answer_2(input@)->0),
{
    let mut map = match try_parse_input(input) {
        Some(map) => map,
        None => {
            return None;
        },
    };
    match pour_all(&mut map, true) {
        Some(count) => Some(format_u64(count + 1)),
        None => None,
    }
}

/// The number of units of sand that come to rest on a floor.
pub fn puzzle_2(input: &str) -> (r: String)
    requires
        answer_2(input@) is Some,
    ensures
        r@ == decimal(answer_2(input@)->0),
{
    try_puzzle_2(input).unwrap()
}

} // verus!
