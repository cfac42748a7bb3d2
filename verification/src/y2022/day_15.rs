//! Beacon exclusion zone: sensors that each know their closest beacon, and the places where no
//! other beacon can be.

use crate::number::{decimal, format_u64, signed_decimal};
use crate::scan::{integer, line_ended, line_ending, read_integer, tag, tagged};
use crate::text::chars;
use itertools::Itertools;
use vstd::prelude::*;

verus! {

/// A place on the map.
#[derive(PartialEq, Eq, Structural, PartialOrd, Ord, Clone, Copy, Debug)]
pub struct Coord {
    pub x: i32,
    pub y: i32,
}

/// What a sensor knows: the beacon closest to it, and how far away that beacon is.
#[derive(Clone, Copy, Debug)]
pub struct Sensor {
    pub closest_beacon: Coord,
    pub distance: i32,
}

/// What is known of a place.
#[derive(Clone, Copy, Eq, PartialEq, Structural, Debug)]
pub enum MapState {
    Unknown,
    Empty,
    Beacon,
    Sensor,
}

/// The sensors by their places, in the order of their places: by `x` first and by `y` among
/// places with the same `x`. No place occurs twice.
pub type SensorMap = Vec<(Coord, Sensor)>;

/// How far `a` is from `b`, not counting signs.
pub open spec fn gap(a: int, b: int) -> int {
    if a < b {
        b - a
    } else {
        a - b
    }
}

impl Coord {
    /// The distance between two places when one moves along the axes only.
    pub open spec fn far(self, other: Coord) -> int {
        gap(self.x as int, other.x as int) + gap(self.y as int, other.y as int)
    }

    /// Whether this place comes before `other` in the order of places.
    pub open spec fn before(self, other: Coord) -> bool {
        self.x < other.x || (self.x == other.x && self.y < other.y)
    }

    /// The distance to `other` along the axes.
    pub fn manhattan_distance(&self, other: &Self) -> (r: i32)
        requires
            self.far(*other) <= i32::MAX,
        ensures
            r == self.far(*other),
    {
        let dx: i64 = if self.x < other.x {
            other.x as i64 - self.x as i64
        } else {
            self.x as i64 - other.x as i64
        };
        let dy: i64 = if self.y < other.y {
            other.y as i64 - self.y as i64
        } else {
            self.y as i64 - other.y as i64
        };
        (dx + dy) as i32
    }

    /// Tells whether this place comes before `other` in the order of places.
    pub fn precedes(&self, other: &Self) -> (r: bool)
        ensures
            r == self.before(*other),
    {
        self.x < other.x || (self.x == other.x && self.y < other.y)
    }
}

/// The place written at position `from` as `x=`, a number, `, y=` and a number, and the
/// position after it.
pub open spec fn coord_at(s: Seq<char>, from: int) -> Option<(Coord, int)> {
    let a = tagged(s, from, "x="@);
    let x = if a is Some {
        integer(s, a.unwrap(), i32::MAX as int)
    } else {
        None
    };
    let b = if x is Some {
        tagged(s, x.unwrap().1, ", "@)
    } else {
        None
    };
    let c = if b is Some {
        tagged(s, b.unwrap(), "y="@)
    } else {
        None
    };
    let y = if c is Some {
        integer(s, c.unwrap(), i32::MAX as int)
    } else {
        None
    };
    if y is Some {
        Some((Coord { x: x.unwrap().0 as i32, y: y.unwrap().0 as i32 }, y.unwrap().1))
    } else {
        None
    }
}

/// The sensor and the beacon written at position `from`, and the position after them.
pub open spec fn line_at(s: Seq<char>, from: int) -> Option<(Coord, Coord, int)> {
    let a = tagged(s, from, "Sensor at "@);
    let sensor = if a is Some {
        coord_at(s, a.unwrap())
    } else {
        None
    };
    let b = if sensor is Some {
        tagged(s, sensor.unwrap().1, ": "@)
    } else {
        None
    };
    let c = if b is Some {
        tagged(s, b.unwrap(), "closest beacon is at "@)
    } else {
        None
    };
    let beacon = if c is Some {
        coord_at(s, c.unwrap())
    } else {
        None
    };
    if beacon is Some {
        Some((sensor.unwrap().0, beacon.unwrap().0, beacon.unwrap().1))
    } else {
        None
    }
}

fn parse_coord(v: &Vec<char>, from: usize) -> (r: Option<(Coord, usize)>)
    ensures
        r is Some == coord_at(v@, from as int) is Some,
        r matches Some(p) ==> coord_at(v@, from as int) == Some((p.0, p.1 as int)),
        r matches Some(p) ==> from < p.1 <= v.len(),
{
    let a = match tag(v, from, "x=") {
        Some(a) => a,
        None => {
            return None;
        },
    };
    let (x, b) = match read_integer(v, a, i32::MAX as u64) {
        Some(p) => p,
        None => {
            return None;
        },
    };
    let c = match tag(v, b, ", ") {
        Some(c) => c,
        None => {
            return None;
        },
    };
    let d = match tag(v, c, "y=") {
        Some(d) => d,
        None => {
            return None;
        },
    };
    let (y, e) = match read_integer(v, d, i32::MAX as u64) {
        Some(p) => p,
        None => {
            return None;
        },
    };
    Some((Coord { x: x as i32, y: y as i32 }, e))
}

fn parse_line(v: &Vec<char>, from: usize) -> (r: Option<(Coord, Coord, usize)>)
    ensures
        r is Some == line_at(v@, from as int) is Some,
        r matches Some(p) ==> line_at(v@, from as int) == Some((p.0, p.1, p.2 as int)),
        r matches Some(p) ==> from < p.2 <= v.len(),
{
    let a = match tag(v, from, "Sensor at ") {
        Some(a) => a,
        None => {
            return None;
        },
    };
    let (sensor, b) = match parse_coord(v, a) {
        Some(p) => p,
        None => {
            return None;
        },
    };
    let c = match tag(v, b, ": ") {
        Some(c) => c,
        None => {
            return None;
        },
    };
    let d = match tag(v, c, "closest beacon is at ") {
        Some(d) => d,
        None => {
            return None;
        },
    };
    let (beacon, e) = match parse_coord(v, d) {
        Some(p) => p,
        None => {
            return None;
        },
    };
    Some((sensor, beacon, e))
}

/// Whether the places of the sensors stand in their order, none twice.
pub open spec fn ordered(map: Seq<(Coord, Sensor)>) -> bool {
    forall|i: int, j: int| 0 <= i < j < map.len() ==> (#[trigger] map[i]).0.before((#[trigger] map[j]).0)
}

/// The first position from `from` on whose place does not come before `key`.
pub open spec fn slot(map: Seq<(Coord, Sensor)>, key: Coord, from: int) -> int
    decreases map.len() - from,
{
    if from < 0 || from >= map.len() || !map[from].0.before(key) {
        from
    } else {
        slot(map, key, from + 1)
    }
}

/// The map in which `key` has the sensor `value`, in place of the sensor it had or as a new
/// place.
pub open spec fn placed(map: Seq<(Coord, Sensor)>, key: Coord, value: Sensor) -> Seq<(Coord, Sensor)> {
    let k = slot(map, key, 0);
    if 0 <= k < map.len() && map[k].0 == key {
        map.update(k, (key, value))
    } else {
        map.insert(k, (key, value))
    }
}

/// `slot` is the first position from `from` on whose place does not come before `key`.
pub proof fn lemma_slot(map: Seq<(Coord, Sensor)>, key: Coord, from: int, k: int)
    requires
        0 <= from <= k <= map.len(),
        forall|j: int| from <= j < k ==> (#[trigger] map[j]).0.before(key),
        k < map.len() ==> !map[k].0.before(key),
    ensures
        slot(map, key, from) == k,
    decreases k - from,
{
    if from < k {
        lemma_slot(map, key, from + 1, k);
    }
}

/// Gives `key` the sensor `value`.
pub fn place(map: &mut SensorMap, key: Coord, value: Sensor)
    requires
        ordered(old(map)@),
    ensures
        final(map)@ == placed(old(map)@, key, value),
        ordered(final(map)@),
        final(map)@.len() > 0,
{
    let mut k: usize = 0;
    while k < map.len() && map[k].0.precedes(&key)
        invariant
            map@ == old(map)@,
            0 <= k <= map.len(),
            forall|j: int| 0 <= j < k ==> (#[trigger] map@[j]).0.before(key),
        decreases map.len() - k,
    {
        k += 1;
    }
    proof {
        lemma_slot(map@, key, 0, k as int);
    }
    let ghost before = map@;
    if k < map.len() && map[k].0 == key {
        map[k] = (key, value);
        assert forall|i: int, j: int| 0 <= i < j < map.len() implies (#[trigger] map@[i]).0.before(
            (#[trigger] map@[j]).0,
        ) by {
            assert(before[i].0.before(before[j].0));
        }
    } else {
        map.insert(k, (key, value));
        assert forall|i: int, j: int| 0 <= i < j < map.len() implies (#[trigger] map@[i]).0.before(
            (#[trigger] map@[j]).0,
        ) by {
            if j < k {
                assert(before[i].0.before(before[j].0));
            } else if j == k {
                assert(before[i].0.before(key));
            } else if i < k {
                assert(before[i].0.before(before[j - 1].0));
            } else if i == k {
                assert(!before[k as int].0.before(key));
                if j - 1 > k {
                    assert(before[k as int].0.before(before[j - 1].0));
                }
            } else {
                assert(before[i - 1].0.before(before[j - 1].0));
            }
        }
    }
}

/// The map that the lines from position `from` on add to `map`, a line for each sensor and the
/// ends of lines between them, up to the first place where no end of a line or no sensor
/// follows. `None` when a beacon is too far from its sensor for the distance to be held.
pub open spec fn charted(s: Seq<char>, from: int, map: Seq<(Coord, Sensor)>) -> Option<Seq<(Coord, Sensor)>>
    decreases s.len() - from,
{
    let next = match line_ended(s, from) {
        Some(a) => line_at(s, a),
        None => None,
    };
    match next {
        Some((sensor, beacon, to)) => if sensor.far(beacon) > i32::MAX {
            None
        } else if from < to <= s.len() {
            charted(
                s,
                to,
                placed(map, sensor, Sensor { closest_beacon: beacon, distance: sensor.far(beacon) as i32 }),
            )
        } else {
            Some(map)
        },
        None => Some(map),
    }
}

/// The map that `input` writes: a first line with a sensor, and the lines that follow it.
pub open spec fn map_of(input: Seq<char>) -> Option<Seq<(Coord, Sensor)>> {
    match line_at(input, 0) {
        Some((sensor, beacon, to)) => if sensor.far(beacon) > i32::MAX {
            None
        } else {
            charted(
                input,
                to,
                seq![(sensor, Sensor { closest_beacon: beacon, distance: sensor.far(beacon) as i32 })],
            )
        },
        None => None,
    }
}

/// Whether every sensor knows the distance of its beacon.
pub open spec fn measured(map: Seq<(Coord, Sensor)>) -> bool {
    forall|i: int| 0 <= i < map.len() ==> (#[trigger] map[i]).1.distance == map[i].0.far(map[i].1.closest_beacon)
}

/// The map with one more sensor is measured if the map was.
proof fn lemma_placed_measured(map: Seq<(Coord, Sensor)>, key: Coord, value: Sensor)
    requires
        measured(map),
        value.distance == key.far(value.closest_beacon),
    ensures
        measured(placed(map, key, value)),
{
    let k = slot(map, key, 0);
    let next = placed(map, key, value);
    if 0 <= k < map.len() && map[k].0 == key {
        assert forall|i: int| 0 <= i < next.len() implies (#[trigger] next[i]).1.distance == next[i].0.far(
            next[i].1.closest_beacon,
        ) by {
            if i != k {
                assert(next[i] == map[i]);
            }
        }
    } else {
        lemma_slot_bounds(map, key, 0);
        assert forall|i: int| 0 <= i < next.len() implies (#[trigger] next[i]).1.distance == next[i].0.far(
            next[i].1.closest_beacon,
        ) by {
            if i < k {
                assert(next[i] == map[i]);
            } else if i > k {
                assert(next[i] == map[i - 1]);
            }
        }
    }
}

/// `slot` lies between `from` and the length of the map.
pub proof fn lemma_slot_bounds(map: Seq<(Coord, Sensor)>, key: Coord, from: int)
    requires
        0 <= from <= map.len(),
    ensures
        from <= slot(map, key, from) <= map.len(),
    decreases map.len() - from,
{
    if from < map.len() && map[from].0.before(key) {
        lemma_slot_bounds(map, key, from + 1);
    }
}

/// Reads the map, if `input` starts with a sensor and no beacon is too far from its sensor.
pub fn try_parse_input(input: &str) -> (r: Option<SensorMap>)
    ensures
        r is Some == map_of(input@) is Some,
        r is Some ==> r->0@ == map_of(input@)->0 && ordered(r->0@) && measured(r->0@) && r->0.len() > 0,
{
    let v = chars(input);
    let (sensor, beacon, first) = match parse_line(&v, 0) {
        Some(p) => p,
        None => {
            return None;
        },
    };
    if !fits(&sensor, &beacon) {
        return None;
    }
    let distance = sensor.manhattan_distance(&beacon);
    let mut map: Vec<(Coord, Sensor)> = Vec::new();
    map.push((sensor, Sensor { closest_beacon: beacon, distance }));
    assert(map@ =~= seq![(sensor, Sensor { closest_beacon: beacon, distance })]);
    let mut at: usize = first;
    let mut more = true;
    while more
        invariant
            v@ == input@,
            0 <= at <= v.len(),
            ordered(map@),
            measured(map@),
            map.len() > 0,
            more ==> map_of(input@) == charted(input@, at as int, map@),
            !more ==> map_of(input@) == Some(map@),
        decreases
                v.len() - at + if more {
                    1int
                } else {
                    0int
                },
    {
        let next = match line_ending(&v, at) {
            Some(a) => parse_line(&v, a),
            None => None,
        };
        match next {
            Some((sensor, beacon, to)) => {
                if !fits(&sensor, &beacon) {
                    return None;
                }
                let distance = sensor.manhattan_distance(&beacon);
                proof {
                    lemma_placed_measured(
                        map@,
                        sensor,
                        Sensor { closest_beacon: beacon, distance },
                    );
                }
                place(&mut map, sensor, Sensor { closest_beacon: beacon, distance });
                at = to;
            },
            None => {
                more = false;
            },
        }
    }
    Some(map)
}

/// Tells whether the distance between the two places can be held.
fn fits(a: &Coord, b: &Coord) -> (r: bool)
    ensures
        r == (a.far(*b) <= i32::MAX),
{
    let dx: i64 = if a.x < b.x {
        b.x as i64 - a.x as i64
    } else {
        a.x as i64 - b.x as i64
    };
    let dy: i64 = if a.y < b.y {
        b.y as i64 - a.y as i64
    } else {
        a.y as i64 - b.y as i64
    };
    dx + dy <= i32::MAX as i64
}

/// Reads the map.
pub fn parse_input(input: &str) -> (r: SensorMap)
    requires
        map_of(input@) is Some,
    ensures
        r@ == map_of(input@)->0,
        ordered(r@),
        measured(r@),
        r.len() > 0,
{
    try_parse_input(input).unwrap()
}

/// Whether `v` can be held in an `i32`.
pub open spec fn fits32(v: int) -> bool {
    i32::MIN <= v <= i32::MAX
}

/// The smallest `x` that the sensor `e` rules out.
pub open spec fn west(e: (Coord, Sensor)) -> int {
    e.0.x - e.1.distance
}

/// The largest `x` that the sensor `e` rules out.
pub open spec fn east(e: (Coord, Sensor)) -> int {
    e.0.x + e.1.distance
}

/// The smallest `y` that the sensor `e` rules out.
pub open spec fn south(e: (Coord, Sensor)) -> int {
    e.0.y - e.1.distance
}

/// The largest `y` that the sensor `e` rules out.
pub open spec fn north(e: (Coord, Sensor)) -> int {
    e.0.y + e.1.distance
}

/// Whether the four ends of what each sensor rules out can be held.
pub open spec fn gentle(map: Seq<(Coord, Sensor)>) -> bool {
    forall|i: int|
        0 <= i < map.len() ==> fits32(west(#[trigger] map[i])) && fits32(east(map[i])) && fits32(
            south(map[i]),
        ) && fits32(north(map[i]))
}

/// Whether `r` holds the ends of what the sensors rule out: the smallest and the largest `x`,
/// then the smallest and the largest `y`; four times 0 without a sensor.
pub open spec fn framed(map: Seq<(Coord, Sensor)>, r: ((i32, i32), (i32, i32))) -> bool {
    let ((x_min, x_max), (y_min, y_max)) = r;
    if map.len() == 0 {
        x_min == 0 && x_max == 0 && y_min == 0 && y_max == 0
    } else {
        &&& exists|i: int| 0 <= i < map.len() && west(#[trigger] map[i]) == x_min
        &&& exists|i: int| 0 <= i < map.len() && east(#[trigger] map[i]) == x_max
        &&& exists|i: int| 0 <= i < map.len() && south(#[trigger] map[i]) == y_min
        &&& exists|i: int| 0 <= i < map.len() && north(#[trigger] map[i]) == y_max
        &&& forall|i: int|
            0 <= i < map.len() ==> x_min <= west(#[trigger] map[i]) && east(map[i]) <= x_max
                && y_min <= south(map[i]) && north(map[i]) <= y_max
    }
}

/// The ends of what the sensors rule out.
pub fn get_footprint(map: &SensorMap) -> (r: ((i32, i32), (i32, i32)))
    requires
        gentle(map@),
    ensures
        framed(map@, r),
{
    if map.len() == 0 {
        return ((0, 0), (0, 0));
    }
    let first = map[0];
    let mut x_min: i32 = first.0.x - first.1.distance;
    let mut x_max: i32 = first.0.x + first.1.distance;
    let mut y_min: i32 = first.0.y - first.1.distance;
    let mut y_max: i32 = first.0.y + first.1.distance;
    let ghost mut wi: int = 0;
    let ghost mut ei: int = 0;
    let ghost mut si: int = 0;
    let ghost mut ni: int = 0;
    let mut k: usize = 1;
    while k < map.len()
        invariant
            gentle(map@),
            1 <= k <= map.len(),
            0 <= wi < k && west(map@[wi]) == x_min,
            0 <= ei < k && east(map@[ei]) == x_max,
            0 <= si < k && south(map@[si]) == y_min,
            0 <= ni < k && north(map@[ni]) == y_max,
            forall|i: int|
                0 <= i < k ==> x_min <= west(#[trigger] map@[i]) && east(map@[i]) <= x_max && y_min
                    <= south(map@[i]) && north(map@[i]) <= y_max,
        decreases map.len() - k,
    {
        let e = map[k];
        if e.0.x - e.1.distance < x_min {
            x_min = e.0.x - e.1.distance;
            proof {
                wi = k as int;
            }
        }
        if e.0.x + e.1.distance > x_max {
            x_max = e.0.x + e.1.distance;
            proof {
                ei = k as int;
            }
        }
        if e.0.y - e.1.distance < y_min {
            y_min = e.0.y - e.1.distance;
            proof {
                si = k as int;
            }
        }
        if e.0.y + e.1.distance > y_max {
            y_max = e.0.y + e.1.distance;
            proof {
                ni = k as int;
            }
        }
        k += 1;
    }
    ((x_min, x_max), (y_min, y_max))
}

/// How far to each side the sensor `e` rules out places in the given row; negative when it
/// rules out none there.
pub open spec fn reach(e: (Coord, Sensor), row: int) -> int {
    e.1.distance - gap(e.0.y as int, row)
}

/// What is known of the place `x` of the row once the sensor `e` has been looked at: its
/// beacon, the sensor itself, a place without a beacon, or what was known before.
pub open spec fn painted(before: MapState, e: (Coord, Sensor), row: int, x: int) -> MapState {
    if reach(e, row) < 0 {
        before
    } else if e.1.closest_beacon.y == row && e.1.closest_beacon.x == x {
        MapState::Beacon
    } else if e.0.y == row && e.0.x == x {
        MapState::Sensor
    } else if e.0.x - reach(e, row) <= x <= e.0.x + reach(e, row) {
        MapState::Empty
    } else {
        before
    }
}

/// What is known of the place `x` of the row once the first `k` sensors have been looked at.
pub open spec fn known(map: Seq<(Coord, Sensor)>, k: int, row: int, x: int) -> MapState
    decreases k,
{
    if k <= 0 {
        MapState::Unknown
    } else {
        painted(known(map, k - 1, row, x), map[k - 1], row, x)
    }
}

/// Whether the sensor `e` can be drawn into the row between `x_min` and `x_max`.
pub open spec fn drawable(e: (Coord, Sensor), x_min: int, x_max: int, row: int) -> bool {
    &&& gap(e.0.y as int, row) <= i32::MAX
    &&& reach(e, row) >= 0 ==> {
        &&& fits32(e.0.x - reach(e, row))
        &&& fits32(e.0.x + reach(e, row))
        &&& x_min <= e.0.x - reach(e, row)
        &&& e.0.x + reach(e, row) <= x_max
        &&& e.1.closest_beacon.y == row ==> x_min <= e.1.closest_beacon.x <= x_max
    }
}

/// Whether the row can be drawn between the ends that `footprint` gives for `x`.
pub open spec fn row_fits(map: Seq<(Coord, Sensor)>, footprint: ((i32, i32), (i32, i32)), row: int) -> bool {
    let ((x_min, x_max), _) = footprint;
    &&& x_min <= x_max
    &&& x_max - x_min < i32::MAX
    &&& forall|i: int| 0 <= i < map.len() ==> drawable(#[trigger] map[i], x_min as int, x_max as int, row)
}

/// Tells whether the sensor can be drawn into the row.
fn can_draw(e: &(Coord, Sensor), x_min: i32, x_max: i32, row: i32) -> (r: bool)
    ensures
        r == drawable(*e, x_min as int, x_max as int, row as int),
{
    let away: i64 = if e.0.y < row {
        row as i64 - e.0.y as i64
    } else {
        e.0.y as i64 - row as i64
    };
    if away > i32::MAX as i64 {
        return false;
    }
    let side: i64 = e.1.distance as i64 - away;
    if side < 0 {
        return true;
    }
    let start: i64 = e.0.x as i64 - side;
    let end: i64 = e.0.x as i64 + side;
    start >= i32::MIN as i64 && end <= i32::MAX as i64 && x_min as i64 <= start && end
        <= x_max as i64 && (e.1.closest_beacon.y != row || (x_min <= e.1.closest_beacon.x
        && e.1.closest_beacon.x <= x_max))
}

/// Tells whether the row can be drawn between the ends that `footprint` gives for `x`.
pub fn row_is_drawable(row_number: i32, map: &SensorMap, footprint: ((i32, i32), (i32, i32))) -> (r:
    bool)
    ensures
        r == row_fits(map@, footprint, row_number as int),
{
    let ((x_min, x_max), _) = footprint;
    if x_min > x_max || x_max as i64 - x_min as i64 >= i32::MAX as i64 {
        return false;
    }
    let mut k: usize = 0;
    while k < map.len()
        invariant
            0 <= k <= map.len(),
            footprint == ((x_min, x_max), footprint.1),
            x_min <= x_max,
            x_max - x_min < i32::MAX,
            forall|i: int|
                0 <= i < k ==> drawable(#[trigger] map@[i], x_min as int, x_max as int, row_number as int),
        decreases map.len() - k,
    {
        if !can_draw(&map[k], x_min, x_max, row_number) {
            assert(!drawable(map@[k as int], x_min as int, x_max as int, row_number as int));
            return false;
        }
        k += 1;
    }
    true
}

/// What is known of each place of the row between the ends that `footprint` gives for `x`.
pub fn get_row(row_number: i32, map: &SensorMap, footprint: ((i32, i32), (i32, i32))) -> (result:
    Vec<MapState>)
    requires
        row_fits(map@, footprint, row_number as int),
    ensures
        result.len() == (footprint.0).1 - (footprint.0).0 + 1,
        forall|i: int|
            0 <= i < result.len() ==> #[trigger] result[i] == known(
                map@,
                map.len() as int,
                row_number as int,
                (footprint.0).0 + i,
            ),
{
    let ((min_x, max_x), _) = footprint;
    let width: usize = (max_x as i64 - min_x as i64 + 1) as usize;
    let mut result: Vec<MapState> = Vec::new();
    let mut w: usize = 0;
    while w < width
        invariant
            0 <= w <= width,
            result.len() == w,
            forall|i: int| 0 <= i < w ==> #[trigger] result[i] == MapState::Unknown,
        decreases width - w,
    {
        result.push(MapState::Unknown);
        w += 1;
    }
    let mut k: usize = 0;
    while k < map.len()
        invariant
            row_fits(map@, footprint, row_number as int),
            footprint == ((min_x, max_x), footprint.1),
            width == max_x - min_x + 1,
            result.len() == width,
            0 <= k <= map.len(),
            forall|i: int|
                0 <= i < width ==> #[trigger] result[i] == known(
                    map@,
                    k as int,
                    row_number as int,
                    min_x + i,
                ),
        decreases map.len() - k,
    {
        let position = map[k].0;
        let sensor = map[k].1;
        let ghost e = map@[k as int];
        assert(drawable(e, min_x as int, max_x as int, row_number as int));
        let away: i64 = if position.y < row_number {
            row_number as i64 - position.y as i64
        } else {
            position.y as i64 - row_number as i64
        };
        let distance: i32 = away as i32;
        if distance <= sensor.distance {
            let start: i32 = position.x - (sensor.distance - distance);
            let end: i32 = position.x + (sensor.distance - distance);
            let ghost before = result@;
            let mut i: i64 = start as i64;
            while i <= end as i64
                invariant
                    min_x <= start <= i <= end + 1,
                    end <= max_x,
                    width == max_x - min_x + 1,
                    max_x - min_x < i32::MAX,
                    result.len() == width,
                    before.len() == width,
                    forall|j: int|
                        0 <= j < width ==> #[trigger] result[j] == if start <= min_x + j < i {
                            MapState::Empty
                        } else {
                            before[j]
                        },
                decreases end + 1 - i,
            {
                result[(i - min_x as i64) as usize] = MapState::Empty;
                i += 1;
            }
            if position.y == row_number {
                result[(position.x - min_x) as usize] = MapState::Sensor;
            }
            if sensor.closest_beacon.y == row_number {
                result[(sensor.closest_beacon.x - min_x) as usize] = MapState::Beacon;
            }
        }
        k += 1;
    }
    result
}

/// The stretch of the row that the sensor `e` rules out, where `x` is not negative: its start,
/// which is at least 0, and its end. The end lies before the start when the sensor rules out
/// nothing there.
pub open spec fn span_on(e: (Coord, Sensor), row: int) -> (i32, i32) {
    let start = e.0.x - reach(e, row);
    let end = e.0.x + reach(e, row);
    (
        (if start > 0 {
            start
        } else {
            0
        }) as i32,
        end as i32,
    )
}

/// The stretches of the row that the sensors rule out, in the order of the sensors.
pub open spec fn spans(map: Seq<(Coord, Sensor)>, row: int) -> Seq<(i32, i32)> {
    Seq::new(map.len(), |i: int| span_on(map[i], row))
}

/// Whether the stretch of the row that the sensor rules out can be worked out.
pub open spec fn tame_on(e: (Coord, Sensor), row: int) -> bool {
    &&& gap(e.0.y as int, row) <= i32::MAX
    &&& fits32(reach(e, row))
    &&& fits32(e.0.x - reach(e, row))
    &&& fits32(e.0.x + reach(e, row))
}

/// Whether the stretches of the row that the sensors rule out can be worked out.
pub open spec fn tame(map: Seq<(Coord, Sensor)>, row: int) -> bool {
    forall|i: int| 0 <= i < map.len() ==> tame_on(#[trigger] map[i], row)
}

/// The stretches of the row that the sensors rule out, if they can be worked out.
pub fn try_get_spans(map: &SensorMap, row_number: i32) -> (r: Option<Vec<(i32, i32)>>)
    ensures
        r is Some == tame(map@, row_number as int),
        r is Some ==> r->0@ == spans(map@, row_number as int),
{
    let mut out: Vec<(i32, i32)> = Vec::new();
    let mut k: usize = 0;
    while k < map.len()
        invariant
            0 <= k <= map.len(),
            out.len() == k,
            forall|i: int| 0 <= i < k ==> tame_on(#[trigger] map@[i], row_number as int),
            forall|i: int| 0 <= i < k ==> #[trigger] out[i] == span_on(map@[i], row_number as int),
        decreases map.len() - k,
    {
        let position = map[k].0;
        let sensor = map[k].1;
        let away: i64 = if position.y < row_number {
            row_number as i64 - position.y as i64
        } else {
            position.y as i64 - row_number as i64
        };
        let side: i64 = sensor.distance as i64 - away;
        let start: i64 = position.x as i64 - side;
        let end: i64 = position.x as i64 + side;
        if away > i32::MAX as i64 || side < i32::MIN as i64 || side > i32::MAX as i64 || start
            < i32::MIN as i64 || start > i32::MAX as i64 || end < i32::MIN as i64 || end
            > i32::MAX as i64 {
            assert(!tame_on(map@[k as int], row_number as int));
            return None;
        }
        let low: i32 = if start > 0 {
            start as i32
        } else {
            0
        };
        out.push((low, end as i32));
        k += 1;
    }
    assert(out@ =~= spans(map@, row_number as int));
    Some(out)
}

/// The stretches that start at `k`, in their order.
pub open spec fn starting_at(ranges: Seq<(i32, i32)>, k: i32) -> Seq<(i32, i32)> {
    ranges.filter(|r: (i32, i32)| r.0 == k)
}

/// Whether the stretches stand by rising starts.
pub open spec fn rising(ranges: Seq<(i32, i32)>) -> bool {
    forall|i: int, j: int|
        0 <= i < j < ranges.len() ==> (#[trigger] ranges[i]).0 <= (#[trigger] ranges[j]).0
}

/// Whether `out` holds the stretches of `ranges` sorted by their starts: the same stretches
/// by rising starts, those with the same start in the order in which they stood.
pub open spec fn sorts(ranges: Seq<(i32, i32)>, out: Seq<(i32, i32)>) -> bool {
    &&& out.len() == ranges.len()
    &&& out.to_multiset() == ranges.to_multiset()
    &&& rising(out)
    &&& forall|k: i32| #[trigger] starting_at(out, k) == starting_at(ranges, k)
}

/// The stretches sorted by their starts.
pub open spec fn sorted_by_start(ranges: Seq<(i32, i32)>) -> Seq<(i32, i32)> {
    choose|out: Seq<(i32, i32)>| sorts(ranges, out)
}

/// The stretches that start at `k` are stretches of the list that start at `k`, and the last
/// stretch of the list is the last of them or none of them.
pub proof fn lemma_starting_at(ranges: Seq<(i32, i32)>, k: i32)
    ensures
        forall|i: int|
            0 <= i < starting_at(ranges, k).len() ==> (#[trigger] starting_at(ranges, k)[i]).0 == k
                && ranges.contains(starting_at(ranges, k)[i]),
        ranges.len() > 0 ==> starting_at(ranges, k) == if ranges.last().0 == k {
            starting_at(ranges.drop_last(), k).push(ranges.last())
        } else {
            starting_at(ranges.drop_last(), k)
        },
    decreases ranges.len(),
{
    reveal(Seq::filter);
    if ranges.len() > 0 {
        let front = ranges.drop_last();
        lemma_starting_at(front, k);
        assert forall|i: int| 0 <= i < starting_at(ranges, k).len() implies (
        #[trigger] starting_at(ranges, k)[i]).0 == k && ranges.contains(starting_at(ranges, k)[i]) by {
            if i < starting_at(front, k).len() {
                let e = starting_at(front, k)[i];
                assert(starting_at(ranges, k)[i] == e);
                assert(front.contains(e));
                let p = choose|p: int| 0 <= p < front.len() && front[p] == e;
                assert(ranges[p] == e);
            } else {
                assert(starting_at(ranges, k)[i] == ranges.last());
                assert(ranges[ranges.len() - 1] == ranges.last());
            }
        }
    }
}

/// Two lists of the same length that stand by rising starts and hold the same stretches for
/// each start, in the same order, are the same list.
pub proof fn lemma_sort_is_unique(a: Seq<(i32, i32)>, b: Seq<(i32, i32)>)
    requires
        a.len() == b.len(),
        rising(a),
        rising(b),
        forall|k: i32| #[trigger] starting_at(a, k) == starting_at(b, k),
    ensures
        a == b,
    decreases a.len(),
{
    if a.len() > 0 {
        let ka = a.last().0;
        let kb = b.last().0;
        lemma_starting_at(a, ka);
        lemma_starting_at(b, ka);
        lemma_starting_at(a, kb);
        lemma_starting_at(b, kb);
        assert(ka <= kb) by {
            let group = starting_at(b, ka);
            assert(group == starting_at(a, ka));
            let e = group[group.len() - 1];
            assert(b.contains(e));
            let p = choose|p: int| 0 <= p < b.len() && b[p] == e;
            assert(b[p].0 <= b[b.len() - 1].0 || p == b.len() - 1);
        }
        assert(kb <= ka) by {
            let group = starting_at(a, kb);
            assert(group == starting_at(b, kb));
            let e = group[group.len() - 1];
            assert(a.contains(e));
            let p = choose|p: int| 0 <= p < a.len() && a[p] == e;
            assert(a[p].0 <= a[a.len() - 1].0 || p == a.len() - 1);
        }
        let ga = starting_at(a.drop_last(), ka);
        let gb = starting_at(b.drop_last(), ka);
        assert(ga.push(a.last()) == gb.push(b.last()));
        assert(a.last() == b.last()) by {
            assert(ga.push(a.last())[ga.len() as int] == a.last());
            assert(gb.push(b.last())[gb.len() as int] == b.last());
            assert(ga.push(a.last()).len() == ga.len() + 1);
        }
        assert(ga =~= gb) by {
            assert(ga.push(a.last()).drop_last() =~= ga);
            assert(gb.push(b.last()).drop_last() =~= gb);
        }
        assert(rising(a.drop_last()));
        assert(rising(b.drop_last()));
        assert forall|k: i32| #[trigger]
            starting_at(a.drop_last(), k) == starting_at(b.drop_last(), k) by {
            lemma_starting_at(a, k);
            lemma_starting_at(b, k);
            assert(starting_at(a, k) == starting_at(b, k));
        }
        lemma_sort_is_unique(a.drop_last(), b.drop_last());
        assert(a =~= a.drop_last().push(a.last()));
        assert(b =~= b.drop_last().push(b.last()));
    } else {
        assert(a =~= b);
    }
}

/// The list by rising starts with one more stretch, which comes after the stretches that
/// start where it starts or before.
pub open spec fn slotted(sorted: Seq<(i32, i32)>, e: (i32, i32)) -> Seq<(i32, i32)>
    decreases sorted.len(),
{
    if sorted.len() == 0 || sorted.last().0 <= e.0 {
        sorted.push(e)
    } else {
        slotted(sorted.drop_last(), e).push(sorted.last())
    }
}

/// The first `n` stretches, each put into the list of those before it.
pub open spec fn arranged(ranges: Seq<(i32, i32)>, n: int) -> Seq<(i32, i32)>
    decreases n,
{
    if n <= 0 {
        Seq::empty()
    } else {
        slotted(arranged(ranges, n - 1), ranges[n - 1])
    }
}

/// Putting a stretch into a list by rising starts gives the list sorted with the stretch
/// added at its end.
pub proof fn lemma_slotted(sorted: Seq<(i32, i32)>, e: (i32, i32))
    requires
        rising(sorted),
    ensures
        slotted(sorted, e).len() == sorted.len() + 1,
        slotted(sorted, e).to_multiset() == sorted.to_multiset().insert(e),
        rising(slotted(sorted, e)),
        forall|i: int|
            0 <= i < slotted(sorted, e).len() ==> (#[trigger] slotted(sorted, e)[i]) == e
                || sorted.contains(slotted(sorted, e)[i]),
        forall|k: i32| #[trigger]
            starting_at(slotted(sorted, e), k) == if k == e.0 {
                starting_at(sorted, k).push(e)
            } else {
                starting_at(sorted, k)
            },
    decreases sorted.len(),
{
    broadcast use vstd::seq_lib::group_to_multiset_ensures;

    let out = slotted(sorted, e);
    if sorted.len() == 0 || sorted.last().0 <= e.0 {
        assert(out == sorted.push(e));
        assert forall|i: int| 0 <= i < out.len() implies (#[trigger] out[i]) == e || sorted.contains(
            out[i],
        ) by {
            if i < sorted.len() {
                assert(sorted[i] == out[i]);
            }
        }
        assert forall|k: i32| #[trigger]
            starting_at(out, k) == if k == e.0 {
                starting_at(sorted, k).push(e)
            } else {
                starting_at(sorted, k)
            } by {
            lemma_starting_at(out, k);
            assert(out.drop_last() =~= sorted);
        }
    } else {
        let front = sorted.drop_last();
        let l = sorted.last();
        let inner = slotted(front, e);
        assert(rising(front));
        lemma_slotted(front, e);
        assert(out == inner.push(l));
        assert(sorted =~= front.push(l));
        assert(out.to_multiset() =~= sorted.to_multiset().insert(e));
        assert forall|i: int| 0 <= i < out.len() implies (#[trigger] out[i]) == e || sorted.contains(
            out[i],
        ) by {
            if i < inner.len() {
                assert(out[i] == inner[i]);
                if inner[i] != e {
                    let p = choose|p: int| 0 <= p < front.len() && front[p] == inner[i];
                    assert(sorted[p] == inner[i]);
                }
            } else {
                assert(sorted[sorted.len() - 1] == l);
            }
        }
        assert forall|i: int, j: int| 0 <= i < j < out.len() implies (#[trigger] out[i]).0 <= (
        #[trigger] out[j]).0 by {
            if j < inner.len() {
                assert(out[i] == inner[i] && out[j] == inner[j]);
            } else {
                assert(out[i] == inner[i]);
                if inner[i] != e {
                    let p = choose|p: int| 0 <= p < front.len() && front[p] == inner[i];
                    assert(sorted[p].0 <= sorted[sorted.len() - 1].0);
                }
            }
        }
        assert forall|k: i32| #[trigger]
            starting_at(out, k) == if k == e.0 {
                starting_at(sorted, k).push(e)
            } else {
                starting_at(sorted, k)
            } by {
            lemma_starting_at(out, k);
            lemma_starting_at(sorted, k);
            assert(out.drop_last() =~= inner);
            assert(starting_at(inner, k) == if k == e.0 {
                starting_at(front, k).push(e)
            } else {
                starting_at(front, k)
            });
        }
    }
}

/// The first `n` stretches, each put into the list of those before it, are those stretches
/// sorted by their starts.
pub proof fn lemma_arranged(ranges: Seq<(i32, i32)>, n: int)
    requires
        0 <= n <= ranges.len(),
    ensures
        sorts(ranges.take(n), arranged(ranges, n)),
    decreases n,
{
    broadcast use vstd::seq_lib::group_to_multiset_ensures;

    if n > 0 {
        lemma_arranged(ranges, n - 1);
        let before = arranged(ranges, n - 1);
        let e = ranges[n - 1];
        lemma_slotted(before, e);
        assert(ranges.take(n) =~= ranges.take(n - 1).push(e));
        assert forall|k: i32| #[trigger]
            starting_at(arranged(ranges, n), k) == starting_at(ranges.take(n), k) by {
            lemma_starting_at(ranges.take(n), k);
            assert(ranges.take(n).drop_last() =~= ranges.take(n - 1));
            assert(starting_at(before, k) == starting_at(ranges.take(n - 1), k));
        }
    } else {
        assert(ranges.take(0) =~= Seq::<(i32, i32)>::empty());
        assert forall|k: i32| #[trigger]
            starting_at(arranged(ranges, 0), k) == starting_at(ranges.take(0), k) by {
            reveal(Seq::filter);
        }
    }
}

/// Every list of stretches has its stretches sorted by their starts, in one way only.
pub proof fn lemma_sorted_by_start(ranges: Seq<(i32, i32)>)
    ensures
        sorts(ranges, sorted_by_start(ranges)),
        forall|out: Seq<(i32, i32)>| sorts(ranges, out) ==> out == sorted_by_start(ranges),
{
    lemma_arranged(ranges, ranges.len() as int);
    assert(ranges.take(ranges.len() as int) =~= ranges);
    assert(sorts(ranges, arranged(ranges, ranges.len() as int)));
    let chosen = sorted_by_start(ranges);
    assert forall|out: Seq<(i32, i32)>| sorts(ranges, out) implies out == chosen by {
        assert forall|k: i32| #[trigger] starting_at(out, k) == starting_at(chosen, k) by {
            assert(starting_at(out, k) == starting_at(ranges, k));
            assert(starting_at(chosen, k) == starting_at(ranges, k));
        }
        lemma_sort_is_unique(out, chosen);
    }
}

/// A place found lies in a row from `row` to `size`, is not negative in `x`, and no sensor
/// rules it out.
pub proof fn lemma_found_is_free(map: Seq<(Coord, Sensor)>, size: int, row: int)
    requires
        0 <= row,
        size < i32::MAX,
    ensures
        found(map, size, row) matches Some(Some(c)) ==> row <= c.y <= size && 0 <= c.x && free(
            map,
            c,
        ),
    decreases size - row + 1,
{
    if row <= size && tame(map, row) {
        let rough = spans(map, row);
        let ranges = sorted_by_start(rough);
        lemma_sorted_by_start(rough);
        match gap_in(ranges, size, 0, -1) {
            Some(x) => {
                lemma_gap_is_free(ranges, size, 0, -1);
                lemma_gap_fits(ranges, size, 0, -1);
                let c = Coord { x: x as i32, y: row as i32 };
                assert forall|i: int| 0 <= i < map.len() implies (#[trigger] map[i]).0.far(c)
                    > map[i].1.distance by {
                    let span = rough[i];
                    assert(span == span_on(map[i], row));
                    vstd::seq_lib::to_multiset_contains(rough, span);
                    vstd::seq_lib::to_multiset_contains(ranges, span);
                    assert(rough.contains(span));
                    assert(ranges.contains(span));
                    let p = choose|p: int| 0 <= p < ranges.len() && ranges[p] == span;
                    assert(!within(ranges[p], x));
                    assert(tame_on(map[i], row));
                    lemma_outside_is_far(map[i], c);
                }
            },
            None => {
                lemma_found_is_free(map, size, row + 1);
            },
        }
    }
}

/// A place that `gap_in` finds is at most one more than `size` or than what was ruled out
/// before.
pub proof fn lemma_gap_fits(ranges: Seq<(i32, i32)>, size: int, k: int, covered: int)
    requires
        0 <= k <= ranges.len(),
        -1 <= covered,
        gap_in(ranges, size, k, covered) is Some,
    ensures
        gap_in(ranges, size, k, covered)->0 <= covered + 1 || gap_in(ranges, size, k, covered)->0
            <= size + 1,
    decreases ranges.len() - k,
{
    if !(ranges[k].0 > covered + 1) {
        let next = if covered > ranges[k].1 {
            covered
        } else {
            ranges[k].1 as int
        };
        lemma_gap_fits(ranges, size, k + 1, next);
    }
}

/// `Itertools::sorted_by_key` with the start of a stretch as its key: the same stretches by
/// rising starts, those with the same start in the order in which they stood.
#[verifier::external_body]
fn sort_ranges(ranges: Vec<(i32, i32)>) -> (out: Vec<(i32, i32)>)
    ensures
        sorts(ranges@, out@),
{
    ranges.into_iter().sorted_by_key(|x| x.0).collect()
}

/// Sorts the stretches by their starts.
pub fn sort_by_start(ranges: Vec<(i32, i32)>) -> (out: Vec<(i32, i32)>)
    ensures
        out@ == sorted_by_start(ranges@),
        sorts(ranges@, out@),
{
    let ghost rough = ranges@;
    let out = sort_ranges(ranges);
    proof {
        let other = sorted_by_start(rough);
        assert(sorts(rough, other));
        assert forall|k: i32| #[trigger] starting_at(out@, k) == starting_at(other, k) by {
            assert(starting_at(out@, k) == starting_at(rough, k));
            assert(starting_at(other, k) == starting_at(rough, k));
        }
        lemma_sort_is_unique(out@, other);
    }
    out
}

/// The first place of a row that the stretches from position `k` on leave free, when the
/// places up to `covered` are ruled out already: the place after `covered`, if the next
/// stretch starts later. Nothing is found once a stretch ends after `size`.
pub open spec fn gap_in(ranges: Seq<(i32, i32)>, size: int, k: int, covered: int) -> Option<int>
    decreases ranges.len() - k,
{
    if k < 0 || k >= ranges.len() || ranges[k].1 > size {
        None
    } else if ranges[k].0 > covered + 1 {
        Some(covered + 1)
    } else {
        gap_in(
            ranges,
            size,
            k + 1,
            if covered > ranges[k].1 {
                covered
            } else {
                ranges[k].1 as int
            },
        )
    }
}

/// Looks for the first place of a row that the stretches leave free, the stretches taken in
/// their order.
pub fn scan_row(ranges: &Vec<(i32, i32)>, subgrid_size: i32) -> (r: Option<i32>)
    requires
        subgrid_size < i32::MAX,
    ensures
        r is Some == gap_in(ranges@, subgrid_size as int, 0, -1) is Some,
        r is Some ==> r->0 == gap_in(ranges@, subgrid_size as int, 0, -1)->0,
        r is Some ==> 0 <= r->0,
{
    let mut covered_until: i32 = -1;
    let mut k: usize = 0;
    while k < ranges.len()
        invariant
            0 <= k <= ranges.len(),
            subgrid_size < i32::MAX,
            -1 <= covered_until,
            covered_until <= subgrid_size || covered_until == -1,
            gap_in(ranges@, subgrid_size as int, 0, -1) == gap_in(
                ranges@,
                subgrid_size as int,
                k as int,
                covered_until as int,
            ),
        decreases ranges.len() - k,
    {
        let min = ranges[k].0;
        let max = ranges[k].1;
        if max > subgrid_size {
            return None;
        }
        if min > covered_until + 1 {
            return Some(covered_until + 1);
        }
        if max > covered_until {
            covered_until = max;
        }
        k += 1;
    }
    None
}

/// The first place with `x` and `y` between 0 and `size` that the rows from `row` on show to
/// be free, looking at each row as `gap_in` does with the stretches sorted by their starts.
/// The outer `None` stands for a row whose stretches cannot be worked out.
pub open spec fn found(map: Seq<(Coord, Sensor)>, size: int, row: int) -> Option<Option<Coord>>
    decreases size - row + 1,
{
    if row > size {
        Some(None)
    } else if !tame(map, row) {
        None
    } else {
        match gap_in(sorted_by_start(spans(map, row)), size, 0, -1) {
            Some(x) => Some(Some(Coord { x: x as i32, y: row as i32 })),
            None => found(map, size, row + 1),
        }
    }
}

/// Whether no sensor rules out the place: each is further from it than from its beacon.
pub open spec fn free(map: Seq<(Coord, Sensor)>, c: Coord) -> bool {
    forall|i: int| 0 <= i < map.len() ==> (#[trigger] map[i]).0.far(c) > map[i].1.distance
}

/// Whether the place `x` lies in the stretch.
pub open spec fn within(range: (i32, i32), x: int) -> bool {
    range.0 <= x <= range.1
}

/// The place that `gap_in` finds among stretches in the order of their starts lies in none
/// of them, and it is not negative.
pub proof fn lemma_gap_is_free(ranges: Seq<(i32, i32)>, size: int, k: int, covered: int)
    requires
        0 <= k <= ranges.len(),
        -1 <= covered,
        forall|i: int, j: int|
            0 <= i < j < ranges.len() ==> (#[trigger] ranges[i]).0 <= (#[trigger] ranges[j]).0,
        forall|i: int| 0 <= i < k ==> (#[trigger] ranges[i]).1 <= covered,
        gap_in(ranges, size, k, covered) is Some,
    ensures
        0 <= gap_in(ranges, size, k, covered)->0,
        forall|i: int|
            0 <= i < ranges.len() ==> !within(
                #[trigger] ranges[i],
                gap_in(ranges, size, k, covered)->0,
            ),
    decreases ranges.len() - k,
{
    if ranges[k].0 > covered + 1 {
        let x = covered + 1;
        assert forall|i: int| 0 <= i < ranges.len() implies !within(#[trigger] ranges[i], x) by {
            if i > k {
                assert(ranges[k].0 <= ranges[i].0);
            }
        }
    } else {
        let next = if covered > ranges[k].1 {
            covered
        } else {
            ranges[k].1 as int
        };
        lemma_gap_is_free(ranges, size, k + 1, next);
    }
}

/// A sensor is further from a place than from its beacon if the place is not negative in
/// `x` and lies outside the stretch that the sensor rules out in the row of the place.
pub proof fn lemma_outside_is_far(e: (Coord, Sensor), c: Coord)
    requires
        tame_on(e, c.y as int),
        0 <= c.x,
        !within(span_on(e, c.y as int), c.x as int),
    ensures
        e.0.far(c) > e.1.distance,
{
}

/// Looks for the first free place, if the stretches of the rows can be worked out. A place
/// that is found lies in a row from 0 to `subgrid_size`, is not negative in `x`, and no
/// sensor rules it out.
pub fn try_get_first_empty_position(subgrid_size: i32, map: &SensorMap) -> (r: Option<Option<Coord>>)
    requires
        subgrid_size < i32::MAX,
    ensures
        r == found(map@, subgrid_size as int, 0),
        r matches Some(Some(c)) ==> 0 <= c.y <= subgrid_size && 0 <= c.x && free(map@, c),
{
    if subgrid_size < 0 {
        return Some(None);
    }
    let mut row_number: i32 = 0;
    while row_number <= subgrid_size
        invariant
            0 <= row_number <= subgrid_size + 1,
            subgrid_size < i32::MAX,
            found(map@, subgrid_size as int, 0) == found(map@, subgrid_size as int, row_number as int),
        decreases subgrid_size + 1 - row_number,
    {
        let ranges = match try_get_spans(map, row_number) {
            Some(ranges) => ranges,
            None => {
                return None;
            },
        };
        let ghost rough = ranges@;
        let ranges = sort_by_start(ranges);
        match scan_row(&ranges, subgrid_size) {
            Some(x) => {
                let c = Coord { x, y: row_number };
                proof {
                    lemma_gap_is_free(ranges@, subgrid_size as int, 0, -1);
                    assert forall|i: int| 0 <= i < map@.len() implies (#[trigger] map@[i]).0.far(c)
                        > map@[i].1.distance by {
                        let span = rough[i];
                        assert(span == span_on(map@[i], row_number as int));
                        vstd::seq_lib::to_multiset_contains(rough, span);
                        vstd::seq_lib::to_multiset_contains(ranges@, span);
                        assert(rough.contains(span));
                        assert(ranges@.contains(span));
                        let p = choose|p: int| 0 <= p < ranges@.len() && ranges@[p] == span;
                        assert(!within(ranges@[p], x as int));
                        assert(tame_on(map@[i], row_number as int));
                        lemma_outside_is_far(map@[i], c);
                    }
                }
                return Some(Some(c));
            },
            None => {},
        }
        row_number += 1;
    }
    Some(None)
}

/// Looks for the first free place. A place that is found lies in a row from 0 to
/// `subgrid_size`, is not negative in `x`, and no sensor rules it out.
pub fn get_first_empty_position(subgrid_size: i32, map: &SensorMap) -> (r: Option<Coord>)
    requires
        subgrid_size < i32::MAX,
        found(map@, subgrid_size as int, 0) is Some,
    ensures
        r == found(map@, subgrid_size as int, 0)->0,
        r matches Some(c) ==> 0 <= c.y <= subgrid_size && 0 <= c.x && free(map@, c),
{
    try_get_first_empty_position(subgrid_size, map).unwrap()
}

/// Tells whether the four ends of what each sensor rules out can be held.
pub fn is_gentle(map: &SensorMap) -> (r: bool)
    ensures
        r == gentle(map@),
{
    let mut k: usize = 0;
    while k < map.len()
        invariant
            0 <= k <= map.len(),
            forall|i: int|
                0 <= i < k ==> fits32(west(#[trigger] map@[i])) && fits32(east(map@[i])) && fits32(
                    south(map@[i]),
                ) && fits32(north(map@[i])),
        decreases map.len() - k,
    {
        let e = map[k];
        let d = e.1.distance as i64;
        let x = e.0.x as i64;
        let y = e.0.y as i64;
        if x - d < i32::MIN as i64 || x - d > i32::MAX as i64 || x + d < i32::MIN as i64 || x + d
            > i32::MAX as i64 || y - d < i32::MIN as i64 || y - d > i32::MAX as i64 || y + d
            < i32::MIN as i64 || y + d > i32::MAX as i64 {
            assert(!(fits32(west(map@[k as int])) && fits32(east(map@[k as int])) && fits32(
                south(map@[k as int]),
            ) && fits32(north(map@[k as int]))));
            return false;
        }
        k += 1;
    }
    true
}

/// The ends of what the sensors rule out.
pub open spec fn frame_of(map: Seq<(Coord, Sensor)>) -> ((i32, i32), (i32, i32)) {
    choose|r: ((i32, i32), (i32, i32))| framed(map, r)
}

/// How many of the first `n` places of the row from `x_min` on are known to hold no beacon.
pub open spec fn empties(map: Seq<(Coord, Sensor)>, row: int, x_min: int, n: int) -> int
    decreases n,
{
    if n <= 0 {
        0
    } else {
        empties(map, row, x_min, n - 1) + if known(map, map.len() as int, row, x_min + n - 1)
            == MapState::Empty {
            1int
        } else {
            0int
        }
    }
}

/// How many places of the row are known to hold no beacon, between the ends of what the
/// sensors rule out.
pub open spec fn empty_in_row(input: Seq<char>, row: int) -> Option<int> {
    match map_of(input) {
        Some(map) => {
            let frame = frame_of(map);
            if gentle(map) && row_fits(map, frame, row) {
                Some(empties(map, row, (frame.0).0 as int, (frame.0).1 - (frame.0).0 + 1))
            } else {
                None
            }
        },
        None => None,
    }
}

/// The number for row 2000000.
pub open spec fn answer_1(input: Seq<char>) -> Option<int> {
    empty_in_row(input, 2_000_000)
}

/// Counts the places of a row that are known to hold no beacon, if the row can be drawn.
pub fn try_count_row(input: &str, row_number: i32) -> (r: Option<usize>)
    ensures
        r is Some == empty_in_row(input@, row_number as int) is Some,
        r is Some ==> r->0 == empty_in_row(input@, row_number as int)->0,
{
    let map = match try_parse_input(input) {
        Some(map) => map,
        None => {
            return None;
        },
    };
    if !is_gentle(&map) {
        return None;
    }
    let footprint = get_footprint(&map);
    proof {
        let other = frame_of(map@);
        assert(framed(map@, footprint));
        assert(framed(map@, other));
        let ((a, b), (c, d)) = footprint;
        let ((a2, b2), (c2, d2)) = other;
        assert(a == a2 && b == b2 && c == c2 && d == d2);
        assert(footprint == other);
    }
    if !row_is_drawable(row_number, &map, footprint) {
        return None;
    }
    let states = get_row(row_number, &map, footprint);
    let ghost x_min = (footprint.0).0 as int;
    let mut count: usize = 0;
    let mut i: usize = 0;
    while i < states.len()
        invariant
            0 <= i <= states.len(),
            count <= i,
            forall|j: int|
                0 <= j < states.len() ==> #[trigger] states[j] == known(
                    map@,
                    map.len() as int,
                    row_number as int,
                    x_min + j,
                ),
            count == empties(map@, row_number as int, x_min, i as int),
        decreases states.len() - i,
    {
        if states[i] == MapState::Empty {
            count += 1;
        }
        i += 1;
    }
    Some(count)
}

/// The number of places of row 2000000 that are known to hold no beacon, if the row can be
/// drawn.
pub fn try_puzzle_1(input: &str) -> (r: Option<String>)
    ensures
        r is Some == answer_1(input@) is Some,
        r is Some ==> r->0@ == decimal(answer_1(input@)->0),
{
    match try_count_row(input, 2_000_000) {
        Some(n) => Some(format_u64(n as u64)),
        None => None,
    }
}

/// The number of places of row 2000000 that are known to hold no beacon.
pub fn puzzle_1(input: &str) -> (r: String)
    requires
        answer_1(input@) is Some,
    ensures
        r@ == decimal(answer_1(input@)->0),
{
    try_puzzle_1(input).unwrap()
}

/// The free place that is found with `x` and `y` up to `size`, as 4000000 times its `x` plus
/// its `y`.
pub open spec fn tuning(input: Seq<char>, size: int) -> Option<int> {
    match map_of(input) {
        Some(map) => match found(map, size, 0) {
            Some(Some(c)) => Some(c.x * 4_000_000 + c.y),
            _ => None,
        },
        None => None,
    }
}

/// The number for a search up to 4000000.
pub open spec fn answer_2(input: Seq<char>) -> Option<int> {
    tuning(input, 4_000_000)
}

/// Looks for the free place with `x` and `y` up to `max_coord`.
pub fn try_tuning(input: &str, max_coord: i32) -> (r: Option<i64>)
    requires
        max_coord < i32::MAX,
    ensures
        r is Some == tuning(input@, max_coord as int) is Some,
        r is Some ==> r->0 == tuning(input@, max_coord as int)->0,
{
    let map = match try_parse_input(input) {
        Some(map) => map,
        None => {
            return None;
        },
    };
    match try_get_first_empty_position(max_coord, &map) {
        Some(Some(first_empty_position)) => Some(
            first_empty_position.x as i64 * 4_000_000 + first_empty_position.y as i64,
        ),
        _ => None,
    }
}

/// 4000000 times the `x` of the free place plus its `y`, if one is found.
pub fn try_puzzle_2(input: &str) -> (r: Option<String>)
    ensures
        r is Some == answer_2(input@) is Some,
        r is Some ==> r->0@ == signed_decimal(answer_2(input@)->0),
{
    match try_tuning(input, 4_000_000) {
        Some(value) => Some(crate::number::format_i64(value)),
        None => None,
    }
}

/// 4000000 times the `x` of the free place plus its `y`.
pub fn puzzle_2(input: &str) -> (r: String)
    requires
        answer_2(input@) is Some,
    ensures
        r@ == signed_decimal(answer_2(input@)->0),
{
    try_puzzle_2(input).unwrap()
}

} // verus!
