//! Rocks of five shapes fall into a chamber seven units wide while jets of gas push them
//! sideways.

use crate::number::{decimal, format_u64};
use crate::text::chars;
use itertools::Itertools;
use std::collections::BTreeMap;
use std::collections::BTreeSet;
use vstd::arithmetic::div_mod::{lemma_fundamental_div_mod_converse, lemma_multiply_divide_lt};
use vstd::prelude::*;

verus! {

broadcast use vstd::laws_cmp::group_laws_cmp;

/// The way a rock is pushed or falls.
#[derive(Debug, PartialEq, Eq, Structural, Clone, Copy)]
pub enum Direction {
    Left,
    Right,
    Down,
}

/// A place in the chamber, or a part of a rock counted from its lower left corner.
#[derive(Debug, PartialEq, Eq, Structural, Clone, Copy)]
pub struct Coord {
    pub x: i32,
    pub y: i32,
}

impl Coord {
    /// Whether the sum of the two by coordinates can be held.
    pub open spec fn fits(self, rhs: Coord) -> bool {
        &&& i32::MIN <= self.x + rhs.x <= i32::MAX
        &&& i32::MIN <= self.y + rhs.y <= i32::MAX
    }

    /// Whether the two sums by coordinates are the same place.
    pub open spec fn meets(self, at: Coord, other: Coord, other_at: Coord) -> bool {
        self.x + at.x == other.x + other_at.x && self.y + at.y == other.y + other_at.y
    }

    /// The sum by coordinates.
    pub fn add(self, rhs: Coord) -> (r: Coord)
        requires
            self.fits(rhs),
        ensures
            r.x == self.x + rhs.x,
            r.y == self.y + rhs.y,
    {
        Coord { x: self.x + rhs.x, y: self.y + rhs.y }
    }
}

/// A rock: its parts, and the largest `x` and the largest `y` among them.
#[derive(Debug)]
pub struct Rock {
    pub parts: Vec<Coord>,
    pub offset_w: i32,
    pub offset_h: i32,
}

/// Whether `m` is the largest `x` among `parts`.
pub open spec fn widest(parts: Seq<Coord>, m: int) -> bool {
    &&& exists|i: int| 0 <= i < parts.len() && (#[trigger] parts[i]).x == m
    &&& forall|i: int| 0 <= i < parts.len() ==> (#[trigger] parts[i]).x <= m
}

/// Whether `m` is the largest `y` among `parts`.
pub open spec fn tallest(parts: Seq<Coord>, m: int) -> bool {
    &&& exists|i: int| 0 <= i < parts.len() && (#[trigger] parts[i]).y == m
    &&& forall|i: int| 0 <= i < parts.len() ==> (#[trigger] parts[i]).y <= m
}

/// The parts that pairs of numbers stand for.
pub open spec fn coords(parts: Seq<(i32, i32)>) -> Seq<Coord> {
    parts.map_values(|p: (i32, i32)| Coord { x: p.0, y: p.1 })
}

impl Rock {
    /// The rock with the given parts.
    pub fn make(parts: Vec<(i32, i32)>) -> (r: Rock)
        requires
            parts.len() > 0,
        ensures
            r.parts@ == coords(parts@),
            widest(r.parts@, r.offset_w as int),
            tallest(r.parts@, r.offset_h as int),
    {
        let mut list: Vec<Coord> = Vec::new();
        let mut offset_w: i32 = parts[0].0;
        let mut offset_h: i32 = parts[0].1;
        let mut i: usize = 0;
        while i < parts.len()
            invariant
                0 <= i <= parts.len(),
                parts.len() > 0,
                list@ == coords(parts@).take(i as int),
                i == 0 ==> offset_w == parts[0].0 && offset_h == parts[0].1,
                i > 0 ==> widest(list@, offset_w as int) && tallest(list@, offset_h as int),
            decreases parts.len() - i,
        {
            let (x, y) = parts[i];
            let ghost before = list@;
            let ghost w0 = offset_w;
            let ghost h0 = offset_h;
            list.push(Coord { x, y });
            assert(list@ =~= coords(parts@).take(i + 1));
            if x > offset_w {
                offset_w = x;
            }
            if y > offset_h {
                offset_h = y;
            }
            proof {
                assert(forall|j: int| 0 <= j < before.len() ==> list@[j] == before[j]);
                assert(list@[i as int].x == x && list@[i as int].y == y);
                if i > 0 {
                    let jx = choose|j: int| 0 <= j < before.len() && (#[trigger] before[j]).x == w0;
                    assert(list@[jx].x == w0);
                    let jy = choose|j: int| 0 <= j < before.len() && (#[trigger] before[j]).y == h0;
                    assert(list@[jy].y == h0);
                }
                assert(widest(list@, offset_w as int));
                assert(tallest(list@, offset_h as int));
            }
            i += 1;
        }
        assert(coords(parts@).take(parts.len() as int) =~= coords(parts@));
        Rock { parts: list, offset_w, offset_h }
    }
}

/// The part at `(x, y)`.
pub open spec fn part(x: int, y: int) -> Coord {
    Coord { x: x as i32, y: y as i32 }
}

/// The parts of the rock that falls when `k` is the rest of its number divided by five: the bar,
/// the cross, the corner, the pole and the block, for 1, 2, 3, 4 and 0.
pub open spec fn shape(k: int) -> Seq<Coord> {
    if k == 1 {
        seq![part(0, 0), part(1, 0), part(2, 0), part(3, 0)]
    } else if k == 2 {
        seq![part(1, 2), part(0, 1), part(1, 1), part(2, 1), part(1, 0)]
    } else if k == 3 {
        seq![part(2, 2), part(2, 1), part(0, 0), part(1, 0), part(2, 0)]
    } else if k == 4 {
        seq![part(0, 3), part(0, 2), part(0, 1), part(0, 0)]
    } else {
        seq![part(0, 0), part(0, 1), part(1, 0), part(1, 1)]
    }
}

/// The largest `x` among the parts of `shape(k)`.
pub open spec fn shape_w(k: int) -> int {
    if k == 1 {
        3
    } else if k == 2 || k == 3 {
        2
    } else if k == 4 {
        0
    } else {
        1
    }
}

/// The largest `y` among the parts of `shape(k)`.
pub open spec fn shape_h(k: int) -> int {
    if k == 1 {
        0
    } else if k == 2 || k == 3 {
        2
    } else if k == 4 {
        3
    } else {
        1
    }
}

/// The rock with the given number.
pub fn get_rock(number: u64) -> (r: Rock)
    ensures
        r.parts@ == shape(number as int % 5),
        r.offset_w == shape_w(number as int % 5),
        r.offset_h == shape_h(number as int % 5),
        widest(r.parts@, r.offset_w as int),
        tallest(r.parts@, r.offset_h as int),
        small(r.parts@),
{
    let k = number % 5;
    let r = if k == 1 {
        Rock::make(vec![(0, 0), (1, 0), (2, 0), (3, 0)])
    } else if k == 2 {
        Rock::make(vec![(1, 2), (0, 1), (1, 1), (2, 1), (1, 0)])
    } else if k == 3 {
        Rock::make(vec![(2, 2), (2, 1), (0, 0), (1, 0), (2, 0)])
    } else if k == 4 {
        Rock::make(vec![(0, 3), (0, 2), (0, 1), (0, 0)])
    } else {
        Rock::make(vec![(0, 0), (0, 1), (1, 0), (1, 1)])
    };
    proof {
        let s = shape(k as int);
        assert(r.parts@ =~= s);
        assert(s.len() >= 4);
        assert(s[0] == r.parts@[0] && s[1] == r.parts@[1] && s[2] == r.parts@[2] && s[3]
            == r.parts@[3]);
        if s.len() > 4 {
            assert(s[4] == r.parts@[4]);
        }
    }
    r
}

/// The jets that `s` writes: `>` pushes right, `<` pushes left, other characters say nothing.
pub open spec fn jets(s: Seq<char>) -> Seq<Direction>
    decreases s.len(),
{
    if s.len() == 0 {
        Seq::empty()
    } else if s.last() == '>' {
        jets(s.drop_last()).push(Direction::Right)
    } else if s.last() == '<' {
        jets(s.drop_last()).push(Direction::Left)
    } else {
        jets(s.drop_last())
    }
}

/// Reads the jets.
pub fn parse_input(input: &str) -> (r: Vec<Direction>)
    ensures
        r@ == jets(input@),
{
    let v = chars(input);
    let mut out: Vec<Direction> = Vec::new();
    let mut i: usize = 0;
    assert(v@.take(0) =~= Seq::<char>::empty());
    while i < v.len()
        invariant
            0 <= i <= v.len(),
            out@ == jets(v@.take(i as int)),
        decreases v.len() - i,
    {
        assert(v@.take(i + 1).drop_last() =~= v@.take(i as int));
        if v[i] == '>' {
            out.push(Direction::Right);
        } else if v[i] == '<' {
            out.push(Direction::Left);
        }
        i += 1;
    }
    assert(v@.take(v.len() as int) =~= v@);
    out
}

/// `Itertools::cartesian_product` on the parts of two rocks, copied out into a list: each part
/// of `a` with each part of `b`, the parts of `a` outermost and both in their order.
#[verifier::external_body]
fn pairs(a: &Vec<Coord>, b: &Vec<Coord>) -> (out: Vec<(Coord, Coord)>)
    ensures
        out.len() == a.len() * b.len(),
        forall|k: int|
            0 <= k < out.len() ==> #[trigger] out[k] == (
                a[k / (b.len() as int)],
                b[k % (b.len() as int)],
            ),
{
    a.iter().cartesian_product(b.iter()).map(|(&l, &r)| (l, r)).collect()
}

/// Whether a part of the first rock and a part of the second come to lie in the same place.
pub open spec fn overlap(a: Seq<Coord>, at: Coord, b: Seq<Coord>, b_at: Coord) -> bool {
    exists|i: int, j: int|
        #![trigger a[i], b[j]]
        0 <= i < a.len() && 0 <= j < b.len() && a[i].meets(at, b[j], b_at)
}

/// Whether every part can be moved by `at` without leaving the numbers that can be held.
pub open spec fn movable(parts: Seq<Coord>, at: Coord) -> bool {
    forall|i: int| 0 <= i < parts.len() ==> (#[trigger] parts[i]).fits(at)
}

/// Tells whether the two rocks, each at its position, share a place.
pub fn rock_intersects(rock_1: &Rock, position_1: Coord, rock_2: &Rock, position_2: Coord) -> (r:
    bool)
    requires
        movable(rock_1.parts@, position_1),
        movable(rock_2.parts@, position_2),
    ensures
        r == overlap(rock_1.parts@, position_1, rock_2.parts@, position_2),
{
    let all = pairs(&rock_1.parts, &rock_2.parts);
    let ghost a = rock_1.parts@;
    let ghost b = rock_2.parts@;
    let mut k: usize = 0;
    while k < all.len()
        invariant
            0 <= k <= all.len(),
            a == rock_1.parts@,
            b == rock_2.parts@,
            movable(a, position_1),
            movable(b, position_2),
            all.len() == a.len() * b.len(),
            forall|m: int|
                0 <= m < all.len() ==> #[trigger] all[m] == (
                    a[m / (b.len() as int)],
                    b[m % (b.len() as int)],
                ),
            forall|m: int|
                0 <= m < k ==> !(#[trigger] all[m]).0.meets(position_1, all[m].1, position_2),
        decreases all.len() - k,
    {
        let (lhs, rhs) = all[k];
        proof {
            assert(b.len() > 0) by (nonlinear_arith)
                requires
                    k < a.len() * b.len(),
            ;
            lemma_multiply_divide_lt(k as int, b.len() as int, a.len() as int);
            assert(0 <= k as int / (b.len() as int)) by (nonlinear_arith)
                requires
                    b.len() > 0,
                    k >= 0,
            ;
            assert(0 <= k as int % (b.len() as int) < b.len());
            assert(all[k as int] == (a[k as int / (b.len() as int)], b[k as int % (b.len() as int)]));
        }
        if lhs.add(position_1) == rhs.add(position_2) {
            assert(a[k as int / (b.len() as int)].meets(
                position_1,
                b[k as int % (b.len() as int)],
                position_2,
            ));
            return true;
        }
        k += 1;
    }
    proof {
        assert forall|i: int, j: int| 0 <= i < a.len() && 0 <= j < b.len() implies !a[i].meets(
            position_1,
            b[j],
            position_2,
        ) by {
            let m = i * b.len() + j;
            lemma_fundamental_div_mod_converse(m, b.len() as int, i, j);
            assert(m < a.len() * b.len()) by (nonlinear_arith)
                requires
                    0 <= i < a.len(),
                    0 <= j < b.len(),
                    m == i * b.len() + j,
            ;
            assert(0 <= m) by (nonlinear_arith)
                requires
                    0 <= i,
                    0 <= j,
                    m == i * b.len() + j,
            ;
            assert(all[m] == (a[i], b[j]));
        }
    }
    false
}

/// No rock comes to rest with a part above this height.
pub const HEIGHT: i32 = 2_000_000_000;

/// `BTreeMap::last_key_value`, of which the key is kept: the largest key of the map, or `None`
/// when the map holds nothing.
#[verifier::external_body]
fn highest(m: &BTreeMap<i32, Vec<(Coord, Rock)>>) -> (r: Option<i32>)
    ensures
        r is None ==> forall|k: i32| !m@.dom().contains(k),
        r matches Some(top) ==> m@.dom().contains(top) && forall|k: i32|
            m@.dom().contains(k) ==> k <= top,
{
    m.last_key_value().map(|(k, _)| *k)
}

/// The rocks of a list with the place of each: what the chamber's rules look at.
pub open spec fn rests(list: Seq<(Coord, Rock)>) -> Seq<(Coord, Seq<Coord>)> {
    Seq::new(list.len(), |n: int| (list[n].0, list[n].1.parts@))
}

/// The rocks at rest, listed under the height of their highest part.
pub open spec fn tower_of(m: Map<i32, Vec<(Coord, Rock)>>) -> Map<i32, Seq<(Coord, Seq<Coord>)>> {
    Map::new(|k: i32| m.dom().contains(k), |k: i32| rests(m[k]@))
}

/// Whether the parts are those of a rock that fits into a square of four by four.
pub open spec fn small(parts: Seq<Coord>) -> bool {
    &&& parts.len() > 0
    &&& forall|j: int|
        0 <= j < parts.len() ==> 0 <= (#[trigger] parts[j]).x <= 3 && 0 <= parts[j].y <= 3
}

/// Whether the rock `p` lies inside the chamber with its highest part at height `k`.
pub open spec fn rests_at(p: (Coord, Seq<Coord>), k: int) -> bool {
    &&& small(p.1)
    &&& 0 <= p.0.y <= k
    &&& tallest(p.1, k - p.0.y)
    &&& forall|j: int| 0 <= j < p.1.len() ==> 0 <= p.0.x + (#[trigger] p.1[j]).x <= 6
}

/// Whether every rock of the tower lies inside the chamber and is listed under the height of
/// its highest part, which is at most `HEIGHT`.
pub open spec fn tidy(tower: Map<i32, Seq<(Coord, Seq<Coord>)>>) -> bool {
    &&& forall|k: i32| #[trigger] tower.dom().contains(k) ==> 0 <= k <= HEIGHT
    &&& forall|k: i32, n: int|
        tower.dom().contains(k) && 0 <= n < tower[k].len() ==> rests_at(
            #[trigger] tower[k][n],
            k as int,
        )
}

/// Whether a rock with the given parts at `at` would share a place with a rock of the tower.
pub open spec fn blocked(
    tower: Map<i32, Seq<(Coord, Seq<Coord>)>>,
    parts: Seq<Coord>,
    at: Coord,
) -> bool {
    exists|k: i32, n: int|
        tower.dom().contains(k) && 0 <= n < tower[k].len() && overlap(
            parts,
            at,
            (#[trigger] tower[k][n]).1,
            tower[k][n].0,
        )
}

/// The place one step from `position` in the given direction.
pub open spec fn pushed(position: Coord, direction: Direction) -> Coord {
    match direction {
        Direction::Left => Coord { x: (position.x - 1) as i32, y: position.y },
        Direction::Right => Coord { x: (position.x + 1) as i32, y: position.y },
        Direction::Down => Coord { x: position.x, y: (position.y - 1) as i32 },
    }
}

/// Where a rock of width `offset_w + 1` goes from `position` in the given direction: one step
/// on, unless it would leave the chamber, which is seven wide and has its floor at height 0, or
/// share a place with a rock at rest.
pub open spec fn moved(
    direction: Direction,
    tower: Map<i32, Seq<(Coord, Seq<Coord>)>>,
    parts: Seq<Coord>,
    offset_w: int,
    position: Coord,
) -> Option<Coord> {
    let to = pushed(position, direction);
    if to.x < 0 || to.x + offset_w >= 7 || to.y < 0 || blocked(tower, parts, to) {
        None
    } else {
        Some(to)
    }
}

/// Whether every rock of the tower is listed under a height that none of its parts lies
/// above.
pub open spec fn listed(tower: Map<i32, Seq<(Coord, Seq<Coord>)>>) -> bool {
    forall|k: i32, n: int, j: int|
        #![trigger tower[k][n].1[j]]
        tower.dom().contains(k) && 0 <= n < tower[k].len() && 0 <= j < tower[k][n].1.len()
            ==> tower[k][n].0.y + tower[k][n].1[j].y <= k
}

/// Whether no part lies below the place of its rock.
pub open spec fn raised(parts: Seq<Coord>) -> bool {
    forall|i: int| 0 <= i < parts.len() ==> (#[trigger] parts[i]).y >= 0
}

/// Whether the places of the parts of a rock at `to`, and of the parts of every rock listed at
/// the height of `to` or above, can be held, if there is such a rock.
pub open spec fn placeable(
    tower: Map<i32, Seq<(Coord, Seq<Coord>)>>,
    parts: Seq<Coord>,
    to: Coord,
) -> bool {
    forall|k: i32, n: int|
        tower.dom().contains(k) && to.y <= k && 0 <= n < tower[k].len() ==> movable(parts, to)
            && movable((#[trigger] tower[k][n]).1, tower[k][n].0)
}

/// Whether the sums that a move works out can be held: the step itself; the right edge of
/// the rock, where the step does not lead past the left wall; and, where the step stays
/// inside the chamber, the places of the parts of the rock and of every rock listed at the
/// height of the step or above, if there is one.
pub open spec fn sums_fit(
    direction: Direction,
    tower: Map<i32, Seq<(Coord, Seq<Coord>)>>,
    parts: Seq<Coord>,
    offset_w: int,
    position: Coord,
) -> bool {
    let to = pushed(position, direction);
    &&& match direction {
        Direction::Left => position.x - 1 >= i32::MIN,
        Direction::Right => position.x + 1 <= i32::MAX,
        Direction::Down => position.y - 1 >= i32::MIN,
    }
    &&& to.x >= 0 ==> to.x + offset_w <= i32::MAX
    &&& to.x >= 0 && to.x + offset_w < 7 && to.y >= 0 ==> placeable(tower, parts, to)
}

/// A rock at rest that is listed below `at` shares no place with a rock at `at`.
pub proof fn lemma_lower_rock_is_clear(
    tower: Map<i32, Seq<(Coord, Seq<Coord>)>>,
    parts: Seq<Coord>,
    at: Coord,
    k: i32,
    n: int,
)
    requires
        listed(tower),
        raised(parts),
        tower.dom().contains(k),
        0 <= n < tower[k].len(),
        k < at.y,
    ensures
        !overlap(parts, at, tower[k][n].1, tower[k][n].0),
{
    let other = tower[k][n];
    assert forall|i: int, j: int| 0 <= i < parts.len() && 0 <= j < other.1.len() implies !parts[i].meets(
        at,
        other.1[j],
        other.0,
    ) by {
        assert(0 <= parts[i].y);
        assert(tower[k][n].0.y + tower[k][n].1[j].y <= k);
    }
}

/// A tidy tower lists its rocks under the height of their highest part, and the places of
/// their parts can be held.
pub proof fn lemma_tidy_is_listed(tower: Map<i32, Seq<(Coord, Seq<Coord>)>>)
    requires
        tidy(tower),
    ensures
        listed(tower),
        forall|k: i32, n: int|
            tower.dom().contains(k) && 0 <= n < tower[k].len() ==> movable(
                (#[trigger] tower[k][n]).1,
                tower[k][n].0,
            ),
{
    assert forall|k: i32, n: int, j: int|
        tower.dom().contains(k) && 0 <= n < tower[k].len() && 0 <= j < tower[k][n].1.len() implies (
    #[trigger] tower[k][n].1[j]).y + tower[k][n].0.y <= k by {
        assert(rests_at(tower[k][n], k as int));
    }
    assert forall|k: i32, n: int| tower.dom().contains(k) && 0 <= n < tower[k].len() implies movable(
        (#[trigger] tower[k][n]).1,
        tower[k][n].0,
    ) by {
        assert(rests_at(tower[k][n], k as int));
    }
}

/// The new position of the rock, if it is able to move.
pub fn rock_moves(
    direction: Direction,
    fallen_rocks: &BTreeMap<i32, Vec<(Coord, Rock)>>,
    rock: &Rock,
    position: Coord,
) -> (r: Option<Coord>)
    requires
        listed(tower_of(fallen_rocks@)),
        raised(rock.parts@),
        sums_fit(
            direction,
            tower_of(fallen_rocks@),
            rock.parts@,
            rock.offset_w as int,
            position,
        ),
    ensures
        r == moved(
            direction,
            tower_of(fallen_rocks@),
            rock.parts@,
            rock.offset_w as int,
            position,
        ),
{
    let ghost tower = tower_of(fallen_rocks@);
    let new_position = match direction {
        Direction::Left => Coord { x: position.x - 1, y: position.y },
        Direction::Right => Coord { x: position.x + 1, y: position.y },
        Direction::Down => Coord { x: position.x, y: position.y - 1 },
    };
    if new_position.x < 0 || new_position.x + rock.offset_w >= 7 || new_position.y < 0 {
        return None;
    }
    let higher_rock_y = match highest(fallen_rocks) {
        Some(k) => {
            assert(tower.dom().contains(k));
            k
        },
        None => 0,
    };
    if new_position.y > higher_rock_y {
        proof {
            assert forall|k: i32, n: int|
                tower.dom().contains(k) && 0 <= n < tower[k].len() implies !overlap(
                rock.parts@,
                new_position,
                (#[trigger] tower[k][n]).1,
                tower[k][n].0,
            ) by {
                lemma_lower_rock_is_clear(tower, rock.parts@, new_position, k, n);
            }
        }
        return Some(new_position);
    }
    assert(new_position == pushed(position, direction));
    let mut y: i64 = new_position.y as i64;
    while y <= higher_rock_y as i64
        invariant
            tower == tower_of(fallen_rocks@),
            new_position == pushed(position, direction),
            placeable(tower, rock.parts@, new_position),
            0 <= new_position.y <= y <= higher_rock_y + 1,
            forall|k: i32, n: int|
                tower.dom().contains(k) && new_position.y <= k < y && 0 <= n < tower[k].len()
                    ==> !overlap(
                    rock.parts@,
                    new_position,
                    (#[trigger] tower[k][n]).1,
                    tower[k][n].0,
                ),
        decreases higher_rock_y - y + 1,
    {
        let row: i32 = y as i32;
        match fallen_rocks.get(&row) {
            Some(list) => {
                assert(fallen_rocks@.dom().contains(row) && fallen_rocks@[row] == *list);
                let mut n: usize = 0;
                while n < list.len()
                    invariant
                        tower == tower_of(fallen_rocks@),
                        new_position == pushed(position, direction),
                        new_position.y <= row,
                        placeable(tower, rock.parts@, new_position),
                        fallen_rocks@.dom().contains(row),
                        fallen_rocks@[row] == *list,
                        0 <= n <= list.len(),
                        forall|m: int|
                            0 <= m < n ==> !overlap(
                                rock.parts@,
                                new_position,
                                (#[trigger] tower[row][m]).1,
                                tower[row][m].0,
                            ),
                    decreases list.len() - n,
                {
                    assert(tower[row][n as int] == (list@[n as int].0, list@[n as int].1.parts@));
                    assert(tower.dom().contains(row) && 0 <= n < tower[row].len());
                    if rock_intersects(rock, new_position, &list[n].1, list[n].0) {
                        assert(tower.dom().contains(row) && overlap(
                            rock.parts@,
                            new_position,
                            tower[row][n as int].1,
                            tower[row][n as int].0,
                        ));
                        return None;
                    }
                    n += 1;
                }
            },
            None => {
                assert(!fallen_rocks@.dom().contains(row));
            },
        }
        y += 1;
    }
    proof {
        assert forall|k: i32, n: int|
            tower.dom().contains(k) && 0 <= n < tower[k].len() implies !overlap(
            rock.parts@,
            new_position,
            (#[trigger] tower[k][n]).1,
            tower[k][n].0,
        ) by {
            if k < new_position.y {
                lemma_lower_rock_is_clear(tower, rock.parts@, new_position, k, n);
            }
        }
    }
    Some(new_position)
}

/// Whether bit `b` of `m` is set.
pub open spec fn has_bit(m: u8, b: u8) -> bool {
    m & (1u8 << b) != 0
}

/// Whether `top` is the largest height under which the tower lists rocks.
pub open spec fn is_summit(tower: Map<i32, Seq<(Coord, Seq<Coord>)>>, top: i32) -> bool {
    tower.dom().contains(top) && forall|k: i32| tower.dom().contains(k) ==> k <= top
}

/// Whether part `j` of rock `n` under height `k` lies in column `x`.
pub open spec fn fills(
    tower: Map<i32, Seq<(Coord, Seq<Coord>)>>,
    k: i32,
    n: int,
    j: int,
    x: int,
) -> bool {
    &&& tower.dom().contains(k)
    &&& 0 <= n < tower[k].len()
    &&& 0 <= j < tower[k][n].1.len()
    &&& tower[k][n].0.x + tower[k][n].1[j].x == x
}

/// Whether column `x` holds a part of a rock whose highest part is among the seven highest
/// rows of the tower.
pub open spec fn covered(tower: Map<i32, Seq<(Coord, Seq<Coord>)>>, x: int) -> bool {
    exists|top: i32, k: i32, n: int, j: int|
        #![trigger is_summit(tower, top), fills(tower, k, n, j, x)]
        is_summit(tower, top) && fills(tower, k, n, j, x) && top - 6 <= k
}

/// Whether column `x` holds a part that comes before part `j0` of rock `n0` under height `k0`,
/// among the rocks listed from height `lo` on.
pub open spec fn filled_before(
    tower: Map<i32, Seq<(Coord, Seq<Coord>)>>,
    lo: int,
    k0: int,
    n0: int,
    j0: int,
    x: int,
) -> bool {
    exists|k: i32, n: int, j: int|
        #![trigger fills(tower, k, n, j, x)]
        fills(tower, k, n, j, x) && lo <= k && (k < k0 || (k == k0 && (n < n0 || (n == n0 && j
            < j0))))
}

/// The columns that the rocks near the top cover, one bit for each column.
pub fn get_floor(fallen_rocks: &BTreeMap<i32, Vec<(Coord, Rock)>>) -> (r: u8)
    requires
        exists|k: i32| fallen_rocks@.dom().contains(k),
        tidy(tower_of(fallen_rocks@)),
    ensures
        forall|b: u8| b < 8 ==> (has_bit(r, b) <==> covered(tower_of(fallen_rocks@), b as int)),
{
    let ghost tower = tower_of(fallen_rocks@);
    let max_height = highest(fallen_rocks).unwrap();
    assert(tower.dom().contains(max_height));
    assert(is_summit(tower, max_height));
    let lo = max_height - 6;
    let mut acc: u8 = 0;
    let mut y: i32 = lo;
    assert(forall|b: u8| b < 8 ==> 0u8 & (1u8 << b) == 0) by (bit_vector);
    while y <= max_height
        invariant
            tower == tower_of(fallen_rocks@),
            tidy(tower),
            lo == max_height - 6,
            0 <= max_height <= HEIGHT,
            lo <= y <= max_height + 1,
            forall|b: u8|
                b < 8 ==> (has_bit(acc, b) <==> filled_before(tower, lo as int, y as int, 0, 0, b as int)),
        decreases max_height - y + 1,
    {
        match fallen_rocks.get(&y) {
            Some(list) => {
                assert(fallen_rocks@.dom().contains(y) && fallen_rocks@[y] == *list);
                let mut n: usize = 0;
                while n < list.len()
                    invariant
                        tower == tower_of(fallen_rocks@),
                        tidy(tower),
                        lo <= y,
                        fallen_rocks@.dom().contains(y),
                        fallen_rocks@[y] == *list,
                        0 <= n <= list.len(),
                        forall|b: u8|
                            b < 8 ==> (has_bit(acc, b) <==> filled_before(
                                tower,
                                lo as int,
                                y as int,
                                n as int,
                                0,
                                b as int,
                            )),
                    decreases list.len() - n,
                {
                    let coord = list[n].0;
                    let rock = &list[n].1;
                    assert(tower[y][n as int] == (coord, rock.parts@));
                    assert(rests_at(tower[y][n as int], y as int));
                    let mut j: usize = 0;
                    while j < rock.parts.len()
                        invariant
                            tower == tower_of(fallen_rocks@),
                            lo <= y,
                            tower.dom().contains(y),
                            0 <= n < tower[y].len(),
                            tower[y][n as int] == (coord, rock.parts@),
                            rests_at(tower[y][n as int], y as int),
                            0 <= j <= rock.parts.len(),
                            forall|b: u8|
                                b < 8 ==> (has_bit(acc, b) <==> filled_before(
                                    tower,
                                    lo as int,
                                    y as int,
                                    n as int,
                                    j as int,
                                    b as int,
                                )),
                        decreases rock.parts.len() - j,
                    {
                        let part = rock.parts[j];
                        assert(part == tower[y][n as int].1[j as int]);
                        let place = coord.add(part);
                        let x: u8 = place.x as u8;
                        let ghost before = acc;
                        acc = acc | (1u8 << x);
                        proof {
                            assert(forall|b: u8|
                                b < 8 ==> (((before | (1u8 << x)) & (1u8 << b) != 0) <==> ((before
                                    & (1u8 << b) != 0) || b == x))) by (bit_vector)
                                requires
                                    x < 8,
                            ;
                            assert forall|b: u8| b < 8 implies (has_bit(acc, b) <==> filled_before(
                                tower,
                                lo as int,
                                y as int,
                                n as int,
                                j + 1,
                                b as int,
                            )) by {
                                lemma_filled_before_next_part(
                                    tower,
                                    lo as int,
                                    y,
                                    n as int,
                                    j as int,
                                    b as int,
                                );
                                assert(place.x == coord.x + part.x);
                                assert(0 <= place.x <= 6);
                                assert((b == x) <==> fills(tower, y, n as int, j as int, b as int));
                                assert(has_bit(before, b) <==> filled_before(
                                    tower,
                                    lo as int,
                                    y as int,
                                    n as int,
                                    j as int,
                                    b as int,
                                ));
                                assert(has_bit(acc, b) <==> (has_bit(before, b) || b == x));
                            }
                        }
                        j += 1;
                    }
                    proof {
                        assert forall|b: u8| b < 8 implies (filled_before(
                            tower,
                            lo as int,
                            y as int,
                            n as int,
                            j as int,
                            b as int,
                        ) <==> filled_before(tower, lo as int, y as int, n + 1, 0, b as int)) by {
                            lemma_filled_before_next_rock(tower, lo as int, y, n as int, b as int);
                        }
                    }
                    n += 1;
                }
                proof {
                    assert forall|b: u8| b < 8 implies (filled_before(
                        tower,
                        lo as int,
                        y as int,
                        n as int,
                        0,
                        b as int,
                    ) <==> filled_before(tower, lo as int, y + 1, 0, 0, b as int)) by {
                        lemma_filled_before_next_row(tower, lo as int, y, b as int);
                    }
                }
            },
            None => {
                assert(!tower.dom().contains(y));
                proof {
                    assert forall|b: u8| b < 8 implies (filled_before(
                        tower,
                        lo as int,
                        y as int,
                        0,
                        0,
                        b as int,
                    ) <==> filled_before(tower, lo as int, y + 1, 0, 0, b as int)) by {
                        lemma_filled_before_next_row(tower, lo as int, y, b as int);
                    }
                }
            },
        }
        y += 1;
    }
    proof {
        assert forall|b: u8| b < 8 implies (filled_before(
            tower,
            lo as int,
            max_height + 1,
            0,
            0,
            b as int,
        ) <==> covered(tower, b as int)) by {
            lemma_filled_before_all(tower, max_height, b as int);
        }
    }
    acc
}

/// One part further on, the column is filled if it was before or if that part fills it.
pub proof fn lemma_filled_before_next_part(
    tower: Map<i32, Seq<(Coord, Seq<Coord>)>>,
    lo: int,
    y: i32,
    n: int,
    j: int,
    x: int,
)
    ensures
        filled_before(tower, lo, y as int, n, j + 1, x) <==> (filled_before(
            tower,
            lo,
            y as int,
            n,
            j,
            x,
        ) || (lo <= y && fills(tower, y, n, j, x))),
{
    if filled_before(tower, lo, y as int, n, j + 1, x) {
        let (k1, n1, j1) = choose|k: i32, n1: int, j1: int|
            #![trigger fills(tower, k, n1, j1, x)]
            fills(tower, k, n1, j1, x) && lo <= k && (k < y || (k == y && (n1 < n || (n1 == n && j1
                < j + 1))));
        assert(fills(tower, k1, n1, j1, x));
    }
    if filled_before(tower, lo, y as int, n, j, x) {
        let (k1, n1, j1) = choose|k: i32, n1: int, j1: int|
            #![trigger fills(tower, k, n1, j1, x)]
            fills(tower, k, n1, j1, x) && lo <= k && (k < y || (k == y && (n1 < n || (n1 == n && j1
                < j))));
        assert(fills(tower, k1, n1, j1, x));
    }
}

/// Past the last part of a rock comes the first part of the next rock of the row.
pub proof fn lemma_filled_before_next_rock(
    tower: Map<i32, Seq<(Coord, Seq<Coord>)>>,
    lo: int,
    y: i32,
    n: int,
    x: int,
)
    requires
        tower.dom().contains(y),
        0 <= n < tower[y].len(),
    ensures
        filled_before(tower, lo, y as int, n, tower[y][n].1.len() as int, x) <==> filled_before(
            tower,
            lo,
            y as int,
            n + 1,
            0,
            x,
        ),
{
    let len = tower[y][n].1.len() as int;
    if filled_before(tower, lo, y as int, n, len, x) {
        let (k1, n1, j1) = choose|k: i32, n1: int, j1: int|
            #![trigger fills(tower, k, n1, j1, x)]
            fills(tower, k, n1, j1, x) && lo <= k && (k < y || (k == y && (n1 < n || (n1 == n && j1
                < len))));
        assert(fills(tower, k1, n1, j1, x));
    }
    if filled_before(tower, lo, y as int, n + 1, 0, x) {
        let (k1, n1, j1) = choose|k: i32, n1: int, j1: int|
            #![trigger fills(tower, k, n1, j1, x)]
            fills(tower, k, n1, j1, x) && lo <= k && (k < y || (k == y && (n1 < n + 1 || (n1 == n + 1
                && j1 < 0))));
        assert(fills(tower, k1, n1, j1, x));
    }
}

/// Past the last rock of a row, or past a height that lists none, comes the next height.
pub proof fn lemma_filled_before_next_row(
    tower: Map<i32, Seq<(Coord, Seq<Coord>)>>,
    lo: int,
    y: i32,
    x: int,
)
    requires
        y < i32::MAX,
    ensures
        filled_before(
            tower,
            lo,
            y as int,
            if tower.dom().contains(y) {
                tower[y].len() as int
            } else {
                0
            },
            0,
            x,
        ) <==> filled_before(tower, lo, y + 1, 0, 0, x),
{
    let len = if tower.dom().contains(y) {
        tower[y].len() as int
    } else {
        0
    };
    if filled_before(tower, lo, y as int, len, 0, x) {
        let (k1, n1, j1) = choose|k: i32, n1: int, j1: int|
            #![trigger fills(tower, k, n1, j1, x)]
            fills(tower, k, n1, j1, x) && lo <= k && (k < y || (k == y && (n1 < len || (n1 == len
                && j1 < 0))));
        assert(fills(tower, k1, n1, j1, x));
    }
    if filled_before(tower, lo, y + 1, 0, 0, x) {
        let (k1, n1, j1) = choose|k: i32, n1: int, j1: int|
            #![trigger fills(tower, k, n1, j1, x)]
            fills(tower, k, n1, j1, x) && lo <= k && (k < y + 1 || (k == y + 1 && (n1 < 0 || (n1 == 0
                && j1 < 0))));
        assert(fills(tower, k1, n1, j1, x));
    }
}

/// What comes before the height above the summit is all that the seven highest rows hold.
pub proof fn lemma_filled_before_all(tower: Map<i32, Seq<(Coord, Seq<Coord>)>>, top: i32, x: int)
    requires
        is_summit(tower, top),
        top < i32::MAX,
    ensures
        filled_before(tower, top - 6, top + 1, 0, 0, x) <==> covered(tower, x),
{
    if filled_before(tower, top - 6, top + 1, 0, 0, x) {
        let (k1, n1, j1) = choose|k: i32, n1: int, j1: int|
            #![trigger fills(tower, k, n1, j1, x)]
            fills(tower, k, n1, j1, x) && top - 6 <= k && (k < top + 1 || (k == top + 1 && (n1 < 0
                || (n1 == 0 && j1 < 0))));
        assert(is_summit(tower, top) && fills(tower, k1, n1, j1, x));
    }
    if covered(tower, x) {
        let (t, k1, n1, j1) = choose|t: i32, k: i32, n1: int, j1: int|
            #![trigger is_summit(tower, t), fills(tower, k, n1, j1, x)]
            is_summit(tower, t) && fills(tower, k, n1, j1, x) && t - 6 <= k;
        assert(t == top);
        assert(fills(tower, k1, n1, j1, x));
        assert(k1 <= top);
    }
}

/// The largest number of rocks that `fall` lets fall.
pub const ROCKS: u64 = 250_000_000;

/// The chamber between two rocks.
pub struct Chamber {
    /// The height of the tower: one more than the height of its highest part, 0 without rocks.
    pub top: int,
    /// The rocks at rest.
    pub tower: Map<i32, Seq<(Coord, Seq<Coord>)>>,
    /// The place in the list of jets of the jet that blows next.
    pub jet: int,
    /// The floors met so far, each with the jet that blows next and the shape of the rock that
    /// left it.
    pub seen: Set<(u8, usize, usize)>,
    /// For each of them, the number of the last rock that left it so and the height then.
    pub last: Map<(u8, usize, usize), (u64, i32)>,
    /// The first repetition found with a full floor: how many rocks and how much height lie
    /// between the two rocks that left the same floor with the same jet and shape, and the
    /// number of the later rock.
    pub cycle: Option<(u64, i32, u64)>,
}

/// Whether bit `b` of `m` tells, for each column `b`, whether it is covered near the top.
pub open spec fn is_floor(tower: Map<i32, Seq<(Coord, Seq<Coord>)>>, m: u8) -> bool {
    forall|b: u8| b < 8 ==> (has_bit(m, b) <==> covered(tower, b as int))
}

/// The floor of the tower: one bit for each column.
pub open spec fn floor_of(tower: Map<i32, Seq<(Coord, Seq<Coord>)>>) -> u8 {
    choose|m: u8| is_floor(tower, m)
}

/// Two bytes with the same bits are the same byte.
pub proof fn lemma_bits_decide(m1: u8, m2: u8)
    requires
        forall|b: u8| b < 8 ==> (has_bit(m1, b) <==> has_bit(m2, b)),
    ensures
        m1 == m2,
{
    assert(has_bit(m1, 0) <==> has_bit(m2, 0));
    assert(has_bit(m1, 1) <==> has_bit(m2, 1));
    assert(has_bit(m1, 2) <==> has_bit(m2, 2));
    assert(has_bit(m1, 3) <==> has_bit(m2, 3));
    assert(has_bit(m1, 4) <==> has_bit(m2, 4));
    assert(has_bit(m1, 5) <==> has_bit(m2, 5));
    assert(has_bit(m1, 6) <==> has_bit(m2, 6));
    assert(has_bit(m1, 7) <==> has_bit(m2, 7));
    assert(((m1 & (1u8 << 0u8) != 0) <==> (m2 & (1u8 << 0u8) != 0)) && ((m1 & (1u8 << 1u8) != 0)
        <==> (m2 & (1u8 << 1u8) != 0)) && ((m1 & (1u8 << 2u8) != 0) <==> (m2 & (1u8 << 2u8) != 0))
        && ((m1 & (1u8 << 3u8) != 0) <==> (m2 & (1u8 << 3u8) != 0)) && ((m1 & (1u8 << 4u8) != 0)
        <==> (m2 & (1u8 << 4u8) != 0)) && ((m1 & (1u8 << 5u8) != 0) <==> (m2 & (1u8 << 5u8) != 0))
        && ((m1 & (1u8 << 6u8) != 0) <==> (m2 & (1u8 << 6u8) != 0)) && ((m1 & (1u8 << 7u8) != 0)
        <==> (m2 & (1u8 << 7u8) != 0)) ==> m1 == m2) by (bit_vector);
}

/// The place in a list of `len` jets that comes after `jet`.
pub open spec fn following(jet: int, len: int) -> int {
    if jet + 1 < len {
        jet + 1
    } else {
        0
    }
}

/// Where a rock comes to rest, and which jet blows next: in turn a jet pushes the rock, if it
/// can move that way, and the rock falls one step, until it cannot fall.
pub open spec fn landing(
    jets: Seq<Direction>,
    tower: Map<i32, Seq<(Coord, Seq<Coord>)>>,
    parts: Seq<Coord>,
    offset_w: int,
    position: Coord,
    jet: int,
) -> (Coord, int)
    decreases position.y,
{
    let shifted = match moved(jets[jet], tower, parts, offset_w, position) {
        Some(p) => p,
        None => position,
    };
    match moved(Direction::Down, tower, parts, offset_w, shifted) {
        Some(lower) if 0 <= lower.y < position.y => landing(
            jets,
            tower,
            parts,
            offset_w,
            lower,
            following(jet, jets.len() as int),
        ),
        _ => (shifted, following(jet, jets.len() as int)),
    }
}

/// The tower with one more rock, listed under `peak` after the rocks that are there.
pub open spec fn settled(
    tower: Map<i32, Seq<(Coord, Seq<Coord>)>>,
    peak: i32,
    at: Coord,
    parts: Seq<Coord>,
) -> Map<i32, Seq<(Coord, Seq<Coord>)>> {
    let row = if tower.dom().contains(peak) {
        tower[peak]
    } else {
        Seq::empty()
    };
    tower.insert(peak, row.push((at, parts)))
}

/// The chamber after the rock with the given number has come to rest in the chamber `c`.
pub open spec fn drop_rock(jets: Seq<Direction>, c: Chamber, number: int) -> Chamber {
    let k = number % 5;
    let start = Coord { x: 2, y: (c.top + 3) as i32 };
    let (at, jet) = landing(jets, c.tower, shape(k), shape_w(k), start, c.jet);
    let peak = at.y + shape_h(k);
    let top = if c.top > peak + 1 {
        c.top
    } else {
        peak + 1
    };
    let tower = settled(c.tower, peak as i32, at, shape(k));
    let floor = floor_of(tower);
    let key = (floor, jet as usize, k as usize);
    let cycle = if c.cycle is None && c.seen.contains(key) && floor == 127 {
        Some(((number - c.last[key].0) as u64, (top - c.last[key].1) as i32, number as u64))
    } else {
        c.cycle
    };
    Chamber {
        top,
        tower,
        jet,
        seen: c.seen.insert(key),
        last: c.last.insert(key, (number as u64, top as i32)),
        cycle,
    }
}

/// The chamber after `n` rocks.
pub open spec fn after(jets: Seq<Direction>, n: int) -> Chamber
    decreases n,
{
    if n <= 0 {
        Chamber {
            top: 0,
            tower: Map::empty(),
            jet: 0,
            seen: Set::empty(),
            last: Map::empty(),
            cycle: None,
        }
    } else {
        drop_rock(jets, after(jets, n - 1), n)
    }
}

/// What holds of the chamber after `n` rocks with `len` jets.
pub open spec fn sound(c: Chamber, n: int, len: int) -> bool {
    &&& tidy(c.tower)
    &&& 0 <= c.top <= 7 * n
    &&& 0 <= c.jet < len
    &&& n >= 1 ==> exists|k: i32| c.tower.dom().contains(k)
    &&& forall|t: (u8, usize, usize)| #[trigger] c.seen.contains(t) ==> c.last.dom().contains(t)
    &&& forall|t: (u8, usize, usize)| #[trigger]
        c.last.dom().contains(t) ==> 1 <= c.last[t].0 <= n && 0 <= c.last[t].1 <= c.top
    &&& c.cycle matches Some(found) ==> 1 <= found.0 < found.2 <= n && 0 <= found.1
}

/// Lets the rock fall from `start` until it rests.
fn land(
    input: &Vec<Direction>,
    fallen_rocks: &BTreeMap<i32, Vec<(Coord, Rock)>>,
    rock: &Rock,
    start: Coord,
    jet: usize,
) -> (r: (Coord, usize))
    requires
        tidy(tower_of(fallen_rocks@)),
        small(rock.parts@),
        0 <= rock.offset_w <= 3,
        widest(rock.parts@, rock.offset_w as int),
        0 <= start.x,
        start.x + rock.offset_w <= 6,
        0 <= start.y <= HEIGHT + 8,
        jet < input.len(),
    ensures
        (r.0, r.1 as int) == landing(
            input@,
            tower_of(fallen_rocks@),
            rock.parts@,
            rock.offset_w as int,
            start,
            jet as int,
        ),
        0 <= r.0.x,
        r.0.x + rock.offset_w <= 6,
        0 <= r.0.y <= start.y,
        r.1 < input.len(),
{
    let ghost tower = tower_of(fallen_rocks@);
    let ghost goal = landing(input@, tower, rock.parts@, rock.offset_w as int, start, jet as int);
    let mut rock_position = start;
    let mut i = jet;
    let mut falling = true;
    while falling
        invariant
            tower == tower_of(fallen_rocks@),
            tidy(tower),
            small(rock.parts@),
            0 <= rock.offset_w <= 3,
            0 <= rock_position.x,
            rock_position.x + rock.offset_w <= 6,
            0 <= rock_position.y <= start.y <= HEIGHT + 8,
            i < input.len(),
            falling ==> goal == landing(
                input@,
                tower,
                rock.parts@,
                rock.offset_w as int,
                rock_position,
                i as int,
            ),
            !falling ==> goal == (rock_position, i as int),
        decreases
                rock_position.y + if falling {
                    1int
                } else {
                    0int
                },
    {
        let direction = input[i];
        i = if i + 1 < input.len() {
            i + 1
        } else {
            0
        };
        proof {
            lemma_tidy_is_listed(tower);
        }
        if let Some(new_position) = rock_moves(direction, fallen_rocks, rock, rock_position) {
            rock_position = new_position;
        }
        if let Some(new_position) = rock_moves(
            Direction::Down,
            fallen_rocks,
            rock,
            rock_position,
        ) {
            rock_position = new_position;
        } else {
            falling = false;
        }
    }
    (rock_position, i)
}

/// Lists the rock under `peak`, after the rocks that are listed there.
fn settle(
    fallen_rocks: &mut BTreeMap<i32, Vec<(Coord, Rock)>>,
    peak: i32,
    rock_position: Coord,
    rock: Rock,
)
    ensures
        tower_of(final(fallen_rocks)@) == settled(
            tower_of(old(fallen_rocks)@),
            peak,
            rock_position,
            rock.parts@,
        ),
{
    let ghost before = tower_of(fallen_rocks@);
    let ghost parts = rock.parts@;
    let mut row = match fallen_rocks.remove(&peak) {
        Some(row) => row,
        None => Vec::new(),
    };
    let ghost old_row = rests(row@);
    row.push((rock_position, rock));
    assert(rests(row@) =~= old_row.push((rock_position, parts)));
    fallen_rocks.insert(peak, row);
    assert(before.dom().contains(peak) ==> before[peak] == old_row);
    assert(!before.dom().contains(peak) ==> old_row =~= Seq::empty());
    assert(tower_of(fallen_rocks@) =~= settled(before, peak, rock_position, parts));
}

/// A tidy tower stays tidy when a rock that lies inside the chamber is listed under the height
/// of its highest part.
pub proof fn lemma_settled_is_tidy(
    tower: Map<i32, Seq<(Coord, Seq<Coord>)>>,
    peak: i32,
    at: Coord,
    parts: Seq<Coord>,
)
    requires
        tidy(tower),
        rests_at((at, parts), peak as int),
        peak <= HEIGHT,
    ensures
        tidy(settled(tower, peak, at, parts)),
{
    let next = settled(tower, peak, at, parts);
    assert forall|k: i32, n: int| next.dom().contains(k) && 0 <= n < next[k].len() implies rests_at(
        #[trigger] next[k][n],
        k as int,
    ) by {
        if k == peak {
            if tower.dom().contains(peak) && n < tower[peak].len() {
                assert(next[k][n] == tower[k][n]);
            } else {
                assert(next[k][n] == (at, parts));
            }
        } else {
            assert(next[k][n] == tower[k][n]);
        }
    }
    assert forall|k: i32| #[trigger] next.dom().contains(k) implies 0 <= k <= HEIGHT by {
        if k != peak {
            assert(tower.dom().contains(k));
        }
    }
}

/// Lets the rocks with the numbers from 1 to `rock_number` fall. Returns the rocks at rest by
/// the height of their highest part, and the first repetition found with a full floor.
pub fn fall(input: &Vec<Direction>, rock_number: u64) -> (r: (
    BTreeMap<i32, Vec<(Coord, Rock)>>,
    Option<(u64, i32, u64)>,
))
    requires
        input.len() > 0,
        rock_number <= ROCKS,
    ensures
        tower_of(r.0@) == after(input@, rock_number as int).tower,
        r.1 == after(input@, rock_number as int).cycle,
        sound(after(input@, rock_number as int), rock_number as int, input.len() as int),
{
    let mut highest_point: i32 = 0;
    let mut fallen_rocks: BTreeMap<i32, Vec<(Coord, Rock)>> = BTreeMap::new();
    let mut cycle_history: BTreeSet<(u8, usize, usize)> = BTreeSet::new();
    let mut floor_history: BTreeMap<(u8, usize, usize), (u64, i32)> = BTreeMap::new();
    let mut cycle: Option<(u64, i32, u64)> = None;
    let mut i: usize = 0;
    let mut number: u64 = 1;
    assert(tower_of(fallen_rocks@) =~= after(input@, 0).tower);
    while number <= rock_number
        invariant
            input.len() > 0,
            rock_number <= ROCKS,
            1 <= number <= rock_number + 1,
            sound(after(input@, number - 1), number - 1, input.len() as int),
            tower_of(fallen_rocks@) == after(input@, number - 1).tower,
            highest_point == after(input@, number - 1).top,
            i == after(input@, number - 1).jet,
            cycle_history@ == after(input@, number - 1).seen,
            floor_history@ == after(input@, number - 1).last,
            cycle == after(input@, number - 1).cycle,
        decreases rock_number - number + 1,
    {
        let ghost c = after(input@, number - 1);
        let ghost next = after(input@, number as int);
        assert(next == drop_rock(input@, c, number as int));
        let rock = get_rock(number);
        let start = Coord { x: 2, y: highest_point + 3 };
        let (rock_position, jet) = land(input, &fallen_rocks, &rock, start, i);
        i = jet;
        let peak = rock_position.y + rock.offset_h;
        if peak + 1 > highest_point {
            highest_point = peak + 1;
        }
        let ghost parts = rock.parts@;
        proof {
            assert(rests_at((rock_position, parts), peak as int)) by {
                assert forall|j: int| 0 <= j < parts.len() implies 0 <= rock_position.x + (
                #[trigger] parts[j]).x <= 6 by {}
            }
            lemma_settled_is_tidy(c.tower, peak, rock_position, parts);
        }
        settle(&mut fallen_rocks, peak, rock_position, rock);
        assert(tower_of(fallen_rocks@) == next.tower);
        assert(next.tower.dom().contains(peak));
        assert(tower_of(fallen_rocks@).dom().contains(peak));
        assert(fallen_rocks@.dom().contains(peak));
        let floor = get_floor(&fallen_rocks);
        proof {
            let m = floor_of(next.tower);
            assert(is_floor(next.tower, floor));
            assert(is_floor(next.tower, m));
            lemma_bits_decide(floor, m);
        }
        let cycle_key = (floor, i, (number % 5) as usize);
        let detected = if cycle_history.contains(&cycle_key) {
            assert(c.seen.contains(cycle_key));
            assert(c.last.dom().contains(cycle_key));
            let last = floor_history.get(&cycle_key).unwrap();
            Some(*last)
        } else {
            cycle_history.insert(cycle_key);
            None
        };
        assert(cycle_history@ =~= next.seen);
        floor_history.insert(cycle_key, (number, highest_point));
        if cycle.is_none() {
            cycle = match detected {
                Some(last) if floor == 127 => Some(
                    (number - last.0, highest_point - last.1, number),
                ),
                _ => None,
            };
        }
        proof {
            assert(next.tower.dom().contains(peak));
            assert(sound(next, number as int, input.len() as int));
        }
        number += 1;
    }
    (fallen_rocks, cycle)
}

/// The largest height under which the tower lists rocks.
pub open spec fn summit(tower: Map<i32, Seq<(Coord, Seq<Coord>)>>) -> i32 {
    choose|top: i32| is_summit(tower, top)
}

/// The height of the tower after 2022 rocks; `None` when `input` writes no jet.
pub open spec fn answer_1(input: Seq<char>) -> Option<int> {
    if jets(input).len() > 0 {
        Some(summit(after(jets(input), 2022).tower) + 1)
    } else {
        None
    }
}

/// The height of the tower after 2022 rocks, if `input` writes a jet.
pub fn try_puzzle_1(input: &str) -> (r: Option<String>)
    ensures
        r is Some == answer_1(input@) is Some,
        r is Some ==> r->0@ == decimal(answer_1(input@)->0),
{
    let input = parse_input(input);
    if input.len() == 0 {
        return None;
    }
    let (fallen_rocks, _) = fall(&input, 2022);
    let ghost tower = after(input@, 2022).tower;
    assert(tower == tower_of(fallen_rocks@));
    proof {
        let k = choose|k: i32| tower.dom().contains(k);
        assert(fallen_rocks@.dom().contains(k));
    }
    let top = highest(&fallen_rocks).unwrap();
    assert(tower.dom().contains(top));
    assert(is_summit(tower, top));
    assert(summit(tower) == top);
    Some(format_u64((top + 1) as u64))
}

/// The height of the tower after 2022 rocks.
pub fn puzzle_1(input: &str) -> (r: String)
    requires
        answer_1(input@) is Some,
    ensures
        r@ == decimal(answer_1(input@)->0),
{
    try_puzzle_1(input).unwrap()
}

/// The repetition that the first of the rock counts `guess`, twice `guess`, four times `guess`
/// and so on shows, as long as the count is at most `ROCKS`.
pub open spec fn search(jets: Seq<Direction>, guess: int) -> Option<(u64, i32, u64)>
    decreases 2 * ROCKS - guess,
{
    if guess <= 0 || guess > ROCKS {
        None
    } else {
        match after(jets, guess).cycle {
            Some(found) => Some(found),
            None => search(jets, 2 * guess),
        }
    }
}

/// How many rocks fall in all.
pub const ALL_ROCKS: u64 = 1_000_000_000_000;

/// The height of the tower after `ALL_ROCKS` rocks, worked out from the repetition found:
/// the height after the rocks up to the later rock of the repetition and the rocks that are
/// left over when the others have been parted into repetitions, and the height of one
/// repetition for each of those.
pub open spec fn height_by(jets: Seq<Direction>, found: (u64, i32, u64)) -> int {
    let repetitions = (ALL_ROCKS - found.2) / (found.0 as int);
    let rest = (ALL_ROCKS - found.2) % (found.0 as int);
    repetitions * found.1 + summit(after(jets, found.2 + rest).tower) + 1
}

/// The height of the tower after `ALL_ROCKS` rocks, worked out from the first repetition.
/// `None` when `input` writes no jet, no repetition shows within `ROCKS` rocks, the rocks up
/// to the repetition and the rest are more than `ROCKS`, or the height cannot be held.
pub open spec fn answer_2(input: Seq<char>) -> Option<int> {
    if jets(input).len() == 0 {
        None
    } else {
        match search(jets(input), 10) {
            Some(found) => {
                let rest = (ALL_ROCKS - found.2) % (found.0 as int);
                if found.2 + rest <= ROCKS && height_by(jets(input), found) <= u64::MAX {
                    Some(height_by(jets(input), found))
                } else {
                    None
                }
            },
            None => None,
        }
    }
}

/// The height of the tower after `ALL_ROCKS` rocks, if a repetition shows from which it can
/// be worked out.
pub fn try_puzzle_2(input: &str) -> (r: Option<String>)
    ensures
        r is Some == answer_2(input@) is Some,
        r is Some ==> r->0@ == decimal(answer_2(input@)->0),
{
    let input = parse_input(input);
    if input.len() == 0 {
        return None;
    }
    let max_len: u64 = ALL_ROCKS;
    let mut initial_guess: u64 = 10;
    let mut found: Option<(u64, i32, u64)> = None;
    while found.is_none() && initial_guess <= ROCKS
        invariant
            input.len() > 0,
            1 <= initial_guess <= 2 * ROCKS,
            found is None ==> search(input@, 10) == search(input@, initial_guess as int),
            found is Some ==> search(input@, 10) == found,
            found matches Some(c) ==> 1 <= c.0 < c.2 <= ROCKS && 0 <= c.1,
        decreases
                2 * ROCKS + 1 - initial_guess - if found is Some {
                    1int
                } else {
                    0int
                },
    {
        found = fall(&input, initial_guess).1;
        if found.is_none() {
            initial_guess *= 2;
        }
    }
    match found {
        Some((length, height, start)) => {
            let remaining_cycles = (max_len - start) / length;
            let rest = (max_len - start) % length;
            if rest > ROCKS - start {
                return None;
            }
            let (fallen_rocks, _) = fall(&input, start + rest);
            let ghost tower = after(input@, start + rest).tower;
            assert(tower == tower_of(fallen_rocks@));
            proof {
                let k = choose|k: i32| tower.dom().contains(k);
                assert(fallen_rocks@.dom().contains(k));
            }
            let top = highest(&fallen_rocks).unwrap();
            assert(tower.dom().contains(top));
            assert(is_summit(tower, top));
            assert(summit(tower) == top);
            assert(0 <= remaining_cycles * height) by (nonlinear_arith)
                requires
                    0 <= remaining_cycles,
                    0 <= height,
            ;
            match remaining_cycles.checked_mul(height as u64) {
                Some(product) => match product.checked_add((top + 1) as u64) {
                    Some(result) => Some(format_u64(result)),
                    None => None,
                },
                None => None,
            }
        },
        None => None,
    }
}

/// The height of the tower after `ALL_ROCKS` rocks.
pub fn puzzle_2(input: &str) -> (r: String)
    requires
        answer_2(input@) is Some,
    ensures
        r@ == decimal(answer_2(input@)->0),
{
    try_puzzle_2(input).unwrap()
}

} // verus!
