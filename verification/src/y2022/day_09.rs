//! Rope bridge: the knots of a rope follow its head, and the places that its tail visits are
//! counted.

use crate::number::{decimal, format_i64, format_u64, i32_of, parse_i32, signed_decimal};
use crate::text::{chars, halves, rows, rows_of, split_once, views};
use std::collections::BTreeSet;
use vstd::prelude::*;

verus! {

broadcast use vstd::laws_cmp::group_laws_cmp;

/// A place on the plane.
#[derive(PartialEq, Eq, Structural, Debug, Hash, Clone, Copy)]
pub struct Pos {
    pub x: i32,
    pub y: i32,
}

/// A direction on the plane.
#[derive(Clone, Copy, PartialEq, Eq, Structural, Debug)]
pub enum Direction {
    Up,
    Down,
    Right,
    Left,
}

/// A rope: the places of its knots, the head first.
pub struct Rope {
    pub knots: Vec<Pos>,
}

/// The direction that a letter stands for.
pub open spec fn direction_of(value: char) -> Option<Direction> {
    if value == 'U' {
        Some(Direction::Up)
    } else if value == 'D' {
        Some(Direction::Down)
    } else if value == 'R' {
        Some(Direction::Right)
    } else if value == 'L' {
        Some(Direction::Left)
    } else {
        None
    }
}

impl Direction {
    /// Reads a direction.
    pub fn try_from(value: char) -> (r: Result<Direction, ()>)
        ensures
            r is Ok == direction_of(value) is Some,
            r is Ok ==> r->Ok_0 == direction_of(value)->0,
    {
        match value {
            'U' => Ok(Direction::Up),
            'D' => Ok(Direction::Down),
            'R' => Ok(Direction::Right),
            'L' => Ok(Self::Left),
            _ => Err(()),
        }
    }
}

/// Whether `v` can be held in an `i32`.
pub open spec fn fits(v: int) -> bool {
    i32::MIN <= v <= i32::MAX
}

impl Pos {
    /// The place `distance` away in the direction; `None` when it cannot be held.
    pub open spec fn moved(self, direction: Direction, distance: int) -> Option<Pos> {
        let (x, y) = match direction {
            Direction::Up => (self.x as int, self.y + distance),
            Direction::Down => (self.x as int, self.y - distance),
            Direction::Right => (self.x + distance, self.y as int),
            Direction::Left => (self.x - distance, self.y as int),
        };
        if fits(x) && fits(y) {
            Some(Pos { x: x as i32, y: y as i32 })
        } else {
            None
        }
    }

    /// Moves the place.
    pub fn move_direction(&mut self, direction: Direction, distance: i32)
        requires
            old(self).moved(direction, distance as int) is Some,
        ensures
            Some(*final(self)) == old(self).moved(direction, distance as int),
    {
        match direction {
            Direction::Up => self.y += distance,
            Direction::Down => self.y -= distance,
            Direction::Right => self.x += distance,
            Direction::Left => self.x -= distance,
        };
    }

    /// Tells whether the place can be moved.
    pub fn can_move(&self, direction: Direction, distance: i32) -> (r: bool)
        ensures
            r == self.moved(direction, distance as int) is Some,
    {
        let (x, y): (i64, i64) = match direction {
            Direction::Up => (self.x as i64, self.y as i64 + distance as i64),
            Direction::Down => (self.x as i64, self.y as i64 - distance as i64),
            Direction::Right => (self.x as i64 + distance as i64, self.y as i64),
            Direction::Left => (self.x as i64 - distance as i64, self.y as i64),
        };
        i32::MIN as i64 <= x && x <= i32::MAX as i64 && i32::MIN as i64 <= y && y <= i32::MAX as i64
    }
}

/// -1, 0 or 1 with the sign of `v`.
pub open spec fn sign(v: int) -> int {
    if v > 0 {
        1
    } else if v < 0 {
        -1
    } else {
        0
    }
}

/// Where a knot at `knot` goes when the knot before it is at `leader`: it stays if it touches
/// the leader, else it moves one step towards it along each axis on which the two differ.
/// `None` when a difference of the two, or what it is without its sign, cannot be held.
pub open spec fn pull(leader: Pos, knot: Pos) -> Option<Pos> {
    let dx = leader.x - knot.x;
    let dy = leader.y - knot.y;
    if dx <= i32::MIN || dx > i32::MAX || dy <= i32::MIN || dy > i32::MAX {
        None
    } else if -1 <= dx <= 1 && -1 <= dy <= 1 {
        Some(knot)
    } else {
        Some(Pos { x: (knot.x + sign(dx)) as i32, y: (knot.y + sign(dy)) as i32 })
    }
}

/// The knots after those from number `id` on have followed the knots before them in turn.
pub open spec fn drag(knots: Seq<Pos>, id: int) -> Option<Seq<Pos>>
    decreases knots.len() - id,
{
    if id < 1 || id >= knots.len() {
        Some(knots)
    } else {
        match pull(knots[id - 1], knots[id]) {
            Some(p) => drag(knots.update(id, p), id + 1),
            None => None,
        }
    }
}

/// The knots after the head has moved one step and the others have followed, with the places
/// that the tail has come to before added to `trail`. The tail comes to a place when it
/// moves, and it is the tail only of a rope of two knots or more.
pub open spec fn step(knots: Seq<Pos>, trail: Seq<Pos>, direction: Direction) -> Option<
    (Seq<Pos>, Seq<Pos>),
> {
    match knots[0].moved(direction, 1) {
        Some(head) => match drag(knots.update(0, head), 1) {
            Some(next) => Some(
                (
                    next,
                    if knots.len() >= 2 && next.last() != knots.last() {
                        trail.push(next.last())
                    } else {
                        trail
                    },
                ),
            ),
            None => None,
        },
        None => None,
    }
}

/// The knots and the trail of the tail after `n` more steps of the head. A rope without
/// knots does not move.
pub open spec fn steps(knots: Seq<Pos>, trail: Seq<Pos>, direction: Direction, n: int) -> Option<
    (Seq<Pos>, Seq<Pos>),
>
    decreases n,
{
    if n <= 0 || knots.len() == 0 {
        Some((knots, trail))
    } else {
        match step(knots, trail, direction) {
            Some((next, longer)) => steps(next, longer, direction, n - 1),
            None => None,
        }
    }
}

/// A knot that does not touch its leader moves.
proof fn lemma_pull_moves(leader: Pos, knot: Pos)
    ensures
        pull(leader, knot) matches Some(p) ==> (p != knot <==> !(-1 <= leader.x - knot.x <= 1 && -1
            <= leader.y - knot.y <= 1)),
{
}

impl Rope {
    /// A rope whose knots all lie at one place.
    pub fn new(knots: usize, starting_pos: Pos) -> (r: Rope)
        ensures
            r.knots@ == Seq::new(knots as nat, |i: int| starting_pos),
    {
        let mut list: Vec<Pos> = Vec::new();
        let mut i: usize = 0;
        while i < knots
            invariant
                0 <= i <= knots,
                list@ == Seq::new(i as nat, |j: int| starting_pos),
            decreases knots - i,
        {
            list.push(starting_pos);
            assert(list@ =~= Seq::new((i + 1) as nat, |j: int| starting_pos));
            i += 1;
        }
        Rope { knots: list }
    }

    /// The last knot.
    pub fn get_tail(&self) -> (r: Option<&Pos>)
        ensures
            self.knots.len() == 0 ==> r is None,
            self.knots.len() > 0 ==> r == Some(&self.knots@.last()),
    {
        if self.knots.len() == 0 {
            None
        } else {
            Some(&self.knots[self.knots.len() - 1])
        }
    }

    /// Moves the head step by step and lets the other knots follow, if the places can be
    /// held. Returns the places that the tail has come to.
    pub fn try_move_head(&mut self, direction: Direction, distance: i32) -> (r: Option<Vec<Pos>>)
        ensures
            r is Some == steps(old(self).knots@, Seq::empty(), direction, distance as int) is Some,
            r is Some ==> (final(self).knots@, r->0@) == steps(
                old(self).knots@,
                Seq::empty(),
                direction,
                distance as int,
            )->0,
    {
        let mut tail_moves: Vec<Pos> = Vec::new();
        let ghost goal = steps(self.knots@, Seq::empty(), direction, distance as int);
        let mut n: i32 = 0;
        while n < distance
            invariant
                0 <= n,
                distance > 0 ==> n <= distance,
                goal == steps(old(self).knots@, Seq::empty(), direction, distance as int),
                goal == steps(self.knots@, tail_moves@, direction, distance - n),
            decreases distance - n,
        {
            if self.knots.len() == 0 {
                return Some(tail_moves);
            }
            let ghost before = self.knots@;
            if !self.knots[0].can_move(direction, 1) {
                return None;
            }
            let mut head = self.knots[0];
            head.move_direction(direction, 1);
            self.knots[0] = head;
            let ghost pulled = self.knots@;
            let ghost target = drag(pulled, 1);
            let last = self.knots.len() - 1;
            let mut id: usize = 1;
            let mut tail_moved = false;
            while id < self.knots.len()
                invariant
                    1 <= id <= self.knots.len(),
                    self.knots.len() == before.len(),
                    last == self.knots.len() - 1,
                    target == drag(self.knots@, id as int),
                    goal == steps(old(self).knots@, Seq::empty(), direction, distance as int),
                    goal == steps(before, tail_moves@, direction, distance - n),
                    n < distance,
                    id <= last ==> self.knots@[last as int] == before[last as int],
                    id <= last ==> !tail_moved,
                    id > last && last >= 1 ==> tail_moved == (self.knots@[last as int] != before[last as int]),
                    last == 0 ==> !tail_moved,
                    before.len() > 0,
                    before[0].moved(direction, 1) == Some(pulled[0]),
                    target == drag(before.update(0, pulled[0]), 1),
                decreases self.knots.len() - id,
            {
                let last_knot = self.knots[id - 1];
                let this = self.knots[id];
                let dx: i64 = last_knot.x as i64 - this.x as i64;
                let dy: i64 = last_knot.y as i64 - this.y as i64;
                if dx <= i32::MIN as i64 || dx > i32::MAX as i64 || dy <= i32::MIN as i64 || dy
                    > i32::MAX as i64 {
                    return None;
                }
                proof {
                    lemma_pull_moves(last_knot, this);
                }
                if !(-1 <= dx && dx <= 1 && -1 <= dy && dy <= 1) {
                    let sx: i32 = if dx > 0 {
                        1
                    } else if dx < 0 {
                        -1
                    } else {
                        0
                    };
                    let sy: i32 = if dy > 0 {
                        1
                    } else if dy < 0 {
                        -1
                    } else {
                        0
                    };
                    let mut knot = this;
                    knot.move_direction(Direction::Right, sx);
                    knot.move_direction(Direction::Up, sy);
                    self.knots[id] = knot;
                    if id == last {
                        tail_moved = true;
                    }
                } else {
                    assert(self.knots@ =~= self.knots@.update(id as int, this));
                }
                id += 1;
            }
            if tail_moved {
                tail_moves.push(self.knots[last]);
            }
            proof {
                if last == 0 {
                    assert(self.knots@.last() == self.knots@[0]);
                }
            }
            n += 1;
        }
        Some(tail_moves)
    }

    /// Moves the head step by step and lets the other knots follow. Returns the places that
    /// the tail has come to.
    pub fn move_head(&mut self, direction: Direction, distance: i32) -> (r: Vec<Pos>)
        requires
            steps(old(self).knots@, Seq::empty(), direction, distance as int) is Some,
        ensures
            (final(self).knots@, r@) == steps(
                old(self).knots@,
                Seq::empty(),
                direction,
                distance as int,
            )->0,
    {
        self.try_move_head(direction, distance).unwrap()
    }
}

/// The motion that a line writes: a direction, by the first character before the first
/// blank, and a distance, which is the number after that blank. The inner `None` stands for
/// a line whose direction or distance cannot be read, the outer one for a line without a
/// blank.
pub open spec fn motion_of(line: Seq<char>) -> Option<Option<(Direction, i32)>> {
    match halves(line, ' ') {
        Some((direction, distance)) => Some(
            if direction.len() > 0 {
                match (direction_of(direction[0]), i32_of(distance)) {
                    (Some(d), Some(n)) => Some((d, n)),
                    _ => None,
                }
            } else {
                None
            },
        ),
        None => None,
    }
}

/// The motions that the first `n` lines write, without the lines whose direction or distance
/// cannot be read; `None` when a line has no blank.
pub open spec fn motions(lines: Seq<Seq<char>>, n: int) -> Option<Seq<(Direction, i32)>>
    decreases n,
{
    if n <= 0 {
        Some(Seq::empty())
    } else {
        match (motions(lines, n - 1), motion_of(lines[n - 1])) {
            (Some(list), Some(Some(m))) => Some(list.push(m)),
            (Some(list), Some(None)) => Some(list),
            _ => None,
        }
    }
}

/// The motions that the non-empty lines of `input` write.
pub open spec fn motions_of(input: Seq<char>) -> Option<Seq<(Direction, i32)>> {
    motions(rows(input), rows(input).len() as int)
}

/// Reads the motions, if every non-empty line has a blank.
pub fn try_parse_input(input: &str) -> (r: Option<Vec<(Direction, i32)>>)
    ensures
        r is Some == motions_of(input@) is Some,
        r is Some ==> r->0@ == motions_of(input@)->0,
{
    let lines = rows_of(input);
    let mut out: Option<Vec<(Direction, i32)>> = Some(Vec::new());
    let mut i: usize = 0;
    while i < lines.len()
        invariant
            views(lines@) == rows(input@),
            0 <= i <= lines.len(),
            out is Some == motions(rows(input@), i as int) is Some,
            out is Some ==> out->0@ == motions(rows(input@), i as int)->0,
        decreases lines.len() - i,
    {
        assert(views(lines@)[i as int] == lines@[i as int]@);
        out = match (out, split_once(lines[i], ' ')) {
            (Some(mut list), Some((direction, distance))) => {
                let letters = chars(direction);
                let direction: Option<Direction> = if letters.len() > 0 {
                    match Direction::try_from(letters[0]) {
                        Ok(d) => Some(d),
                        Err(_) => None,
                    }
                } else {
                    None
                };
                let distance: Option<i32> = parse_i32(distance);
                match (direction, distance) {
                    (Some(direction), Some(distance)) => {
                        list.push((direction, distance));
                    },
                    (_, _) => {},
                }
                Some(list)
            },
            _ => None,
        };
        i += 1;
    }
    out
}

/// Reads the motions.
pub fn parse_input(input: &str) -> (r: Vec<(Direction, i32)>)
    requires
        motions_of(input@) is Some,
    ensures
        r@ == motions_of(input@)->0,
{
    try_parse_input(input).unwrap()
}

/// The places with the first `n` places of the trail among them.
pub open spec fn marked(places: Set<(i32, i32)>, trail: Seq<Pos>, n: int) -> Set<(i32, i32)>
    decreases n,
{
    if n <= 0 {
        places
    } else {
        marked(places, trail, n - 1).insert((trail[n - 1].x, trail[n - 1].y))
    }
}

/// The knots and the places that the tail has visited after the motions from number `i` on.
pub open spec fn visited(
    knots: Seq<Pos>,
    places: Set<(i32, i32)>,
    moves: Seq<(Direction, i32)>,
    i: int,
) -> Option<(Seq<Pos>, Set<(i32, i32)>)>
    decreases moves.len() - i,
{
    if i < 0 || i >= moves.len() {
        Some((knots, places))
    } else {
        match steps(knots, Seq::empty(), moves[i].0, moves[i].1 as int) {
            Some((next, trail)) => visited(
                next,
                marked(places, trail, trail.len() as int),
                moves,
                i + 1,
            ),
            None => None,
        }
    }
}

/// The knots and the places that the tail visits with the motions, the place where it lies
/// at first among them; `None` for a rope without knots or when a place cannot be held.
pub open spec fn tail_places(knots: Seq<Pos>, moves: Seq<(Direction, i32)>) -> Option<
    (Seq<Pos>, Set<(i32, i32)>),
> {
    if knots.len() == 0 {
        None
    } else {
        visited(knots, Set::empty().insert((knots.last().x, knots.last().y)), moves, 0)
    }
}

/// Moves the rope and notes the places that the tail visits, if they can be held.
pub fn try_get_tail_pos(mouvements: Vec<(Direction, i32)>, rope: &mut Rope) -> (r: Option<
    BTreeSet<(i32, i32)>,
>)
    ensures
        r is Some == tail_places(old(rope).knots@, mouvements@) is Some,
        r is Some ==> (final(rope).knots@, r->0@) == tail_places(old(rope).knots@, mouvements@)->0,
        r is Some ==> r->0@.finite(),
{
    let mut positions: BTreeSet<(i32, i32)> = BTreeSet::new();
    let tail = match rope.get_tail() {
        Some(tail) => *tail,
        None => {
            return None;
        },
    };
    positions.insert((tail.x, tail.y));
    let ghost goal = tail_places(rope.knots@, mouvements@);
    let mut i: usize = 0;
    while i < mouvements.len()
        invariant
            0 <= i <= mouvements.len(),
            goal == tail_places(old(rope).knots@, mouvements@),
            goal == visited(rope.knots@, positions@, mouvements@, i as int),
            positions@.finite(),
        decreases mouvements.len() - i,
    {
        let (direction, distance) = mouvements[i];
        let trail = match rope.try_move_head(direction, distance) {
            Some(trail) => trail,
            None => {
                return None;
            },
        };
        let ghost before = positions@;
        let mut k: usize = 0;
        while k < trail.len()
            invariant
                0 <= k <= trail.len(),
                positions@ == marked(before, trail@, k as int),
                positions@.finite(),
            decreases trail.len() - k,
        {
            positions.insert((trail[k].x, trail[k].y));
            k += 1;
        }
        i += 1;
    }
    Some(positions)
}

/// Moves the rope and notes the places that the tail visits.
pub fn get_tail_pos(mouvements: Vec<(Direction, i32)>, rope: &mut Rope) -> (r: BTreeSet<(i32, i32)>)
    requires
        tail_places(old(rope).knots@, mouvements@) is Some,
    ensures
        (final(rope).knots@, r@) == tail_places(old(rope).knots@, mouvements@)->0,
{
    try_get_tail_pos(mouvements, rope).unwrap()
}

/// The number of places that the tail of a rope of so many knots visits, all knots at first
/// at one place; `None` when the motions cannot be read or a place cannot be held.
pub open spec fn answer(input: Seq<char>, knots: nat) -> Option<int> {
    match motions_of(input) {
        Some(moves) => match tail_places(Seq::new(knots, |i: int| Pos { x: 0, y: 0 }), moves) {
            Some((_, places)) => Some(places.len() as int),
            None => None,
        },
        None => None,
    }
}

fn count(input: &str, knots: usize) -> (r: Option<String>)
    ensures
        r is Some == answer(input@, knots as nat) is Some,
        r is Some ==> r->0@ == decimal(answer(input@, knots as nat)->0),
{
    let mouvements = match try_parse_input(input) {
        Some(m) => m,
        None => {
            return None;
        },
    };
    let mut rope = Rope::new(knots, Pos { x: 0, y: 0 });
    match try_get_tail_pos(mouvements, &mut rope) {
        Some(positions) => Some(format_u64(positions.len() as u64)),
        None => None,
    }
}

/// The number of places that the tail of a rope of two knots visits, if it can be worked
/// out.
pub fn try_puzzle_1(input: &str) -> (r: Option<String>)
    ensures
        r is Some == answer(input@, 2) is Some,
        r is Some ==> r->0@ == decimal(answer(input@, 2)->0),
{
    count(input, 2)
}

/// The number of places that the tail of a rope of two knots visits.
pub fn puzzle_1(input: &str) -> (r: String)
    requires
        answer(input@, 2) is Some,
    ensures
        r@ == decimal(answer(input@, 2)->0),
{
    count(input, 2).unwrap()
}

/// The number of places that the tail of a rope of ten knots visits, if it can be worked
/// out.
pub fn try_puzzle_2(input: &str) -> (r: Option<String>)
    ensures
        r is Some == answer(input@, 10) is Some,
        r is Some ==> r->0@ == decimal(answer(input@, 10)->0),
{
    count(input, 10)
}

/// The number of places that the tail of a rope of ten knots visits.
pub fn puzzle_2(input: &str) -> (r: String)
    requires
        answer(input@, 10) is Some,
    ensures
        r@ == decimal(answer(input@, 10)->0),
{
    count(input, 10).unwrap()
}

/// Whether `b` gives the sides of the smallest picture that shows the start and every
/// position: the least and the greatest x, then the least and the greatest y.
pub open spec fn frames(positions: Set<(i32, i32)>, b: (i32, i32, i32, i32)) -> bool {
    &&& b.0 <= 0 <= b.1
    &&& b.2 <= 0 <= b.3
    &&& forall|p: (i32, i32)| #[trigger]
        positions.contains(p) ==> b.0 <= p.0 <= b.1 && b.2 <= p.1 <= b.3
    &&& b.0 < 0 ==> exists|p: (i32, i32)| #[trigger] positions.contains(p) && p.0 == b.0
    &&& b.1 > 0 ==> exists|p: (i32, i32)| #[trigger] positions.contains(p) && p.0 == b.1
    &&& b.2 < 0 ==> exists|p: (i32, i32)| #[trigger] positions.contains(p) && p.1 == b.2
    &&& b.3 > 0 ==> exists|p: (i32, i32)| #[trigger] positions.contains(p) && p.1 == b.3
}

/// Finds the sides of the smallest picture that shows the start and every position.
pub fn debug_frame(positions: &BTreeSet<(i32, i32)>) -> (b: (i32, i32, i32, i32))
    ensures
        frames(positions@, b),
{
    let mut max_x: i32 = 0;
    let mut max_y: i32 = 0;
    let mut min_x: i32 = 0;
    let mut min_y: i32 = 0;
    for p in it: positions.iter()
        invariant
            it.seq().unref().to_set() == positions@,
            min_x <= 0 <= max_x,
            min_y <= 0 <= max_y,
            forall|j: int|
                0 <= j < it.index() ==> min_x <= (#[trigger] it.seq()[j]).0 <= max_x && min_y
                    <= it.seq()[j].1 <= max_y,
            min_x < 0 ==> exists|q: (i32, i32)| #[trigger] positions@.contains(q) && q.0 == min_x,
            max_x > 0 ==> exists|q: (i32, i32)| #[trigger] positions@.contains(q) && q.0 == max_x,
            min_y < 0 ==> exists|q: (i32, i32)| #[trigger] positions@.contains(q) && q.1 == min_y,
            max_y > 0 ==> exists|q: (i32, i32)| #[trigger] positions@.contains(q) && q.1 == max_y,
            it.index() == it.seq().len() ==> forall|q: (i32, i32)| #[trigger]
                positions@.contains(q) ==> min_x <= q.0 <= max_x && min_y <= q.1 <= max_y,
    {
        assert(it.seq().unref()[it.index() as int] == *p);
        assert(it.seq().unref().to_set().contains(*p));
        assert(positions@.contains(*p));
        if p.0 < min_x {
            min_x = p.0;
        }
        if p.1 < min_y {
            min_y = p.1;
        }
        if p.0 > max_x {
            max_x = p.0;
        }
        if p.1 > max_y {
            max_y = p.1;
        }
        assert forall|q: (i32, i32)|
            it.index() + 1 == it.seq().len() && #[trigger] positions@.contains(q) implies min_x
            <= q.0 <= max_x && min_y <= q.1 <= max_y by {
            assert(it.seq().unref().to_set().contains(q));
            let j = choose|j: int| 0 <= j < it.seq().unref().len() && it.seq().unref()[j] == q;
            assert(*it.seq()[j] == q);
        }
    }
    (min_x, max_x, min_y, max_y)
}

/// What the picture shows at a place: `s` at the start, `#` at a position, else `.`.
pub open spec fn mark_at(positions: Set<(i32, i32)>, x: int, y: int) -> char {
    if x == 0 && y == 0 {
        's'
    } else if positions.contains((x as i32, y as i32)) {
        '#'
    } else {
        '.'
    }
}

/// The marks of row `y` from `min_x` up to `max_x`.
pub open spec fn marks(positions: Set<(i32, i32)>, min_x: int, max_x: int, y: int) -> Seq<char> {
    Seq::new(
        if max_x >= min_x {
            (max_x - min_x + 1) as nat
        } else {
            0nat
        },
        |i: int| mark_at(positions, min_x + i, y),
    )
}

/// Row `y` of the picture: the number of the row, a tab, and the marks from `min_x` up to
/// `max_x`.
pub open spec fn debug_row(positions: Set<(i32, i32)>, min_x: i32, max_x: i32, y: i32) -> Seq<
    char,
> {
    signed_decimal(y as int) + seq!['\t'] + marks(positions, min_x as int, max_x as int, y as int)
}

/// Draws row `y` of the picture.
pub fn debug_line(positions: &BTreeSet<(i32, i32)>, min_x: i32, max_x: i32, y: i32) -> (line:
    String)
    ensures
        line@ == debug_row(positions@, min_x, max_x, y),
{
    let mut line = format_i64(y as i64);
    line.push('\t');
    let ghost head = line@;
    let mut x: i64 = min_x as i64;
    assert(line@ =~= head + marks(positions@, min_x as int, min_x - 1, y as int));
    while x <= max_x as i64
        invariant
            min_x <= x <= max_x + 1 || (min_x > max_x && x == min_x),
            head == signed_decimal(y as int) + seq!['\t'],
            line@ == head + marks(positions@, min_x as int, x - 1, y as int),
        decreases max_x - x + 1,
    {
        let c = if x == 0 && y == 0 {
            's'
        } else if positions.contains(&(x as i32, y)) {
            '#'
        } else {
            '.'
        };
        line.push(c);
        assert(line@ =~= head + marks(positions@, min_x as int, x as int, y as int));
        x += 1;
    }
    line
}

} // verus!
