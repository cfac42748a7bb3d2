//! Points and lines on a grid of whole numbers.

use num::Integer;
use vstd::prelude::*;
use vstd::std_specs::ops::{AddSpecImpl, SubSpecImpl};

verus! {

/// A point of the grid, or the step from one point to another.
#[derive(Debug, PartialEq, Eq, Structural, PartialOrd, Ord, Clone, Copy)]
pub struct Point2 {
    pub x: i32,
    pub y: i32,
}

/// The step from one point to another.
pub type Vector2 = Point2;

impl Point2 {
    /// Whether a number can be held as a coordinate.
    pub open spec fn fits(n: int) -> bool {
        i32::MIN <= n <= i32::MAX
    }

    /// The point that lies `rhs` further.
    pub open spec fn plus(self, rhs: Point2) -> Point2 {
        Point2 { x: (self.x + rhs.x) as i32, y: (self.y + rhs.y) as i32 }
    }

    /// The step that leads from `rhs` here.
    pub open spec fn minus(self, rhs: Point2) -> Point2 {
        Point2 { x: (self.x - rhs.x) as i32, y: (self.y - rhs.y) as i32 }
    }

    /// Whether the point that lies `rhs` further can be held.
    pub open spec fn can_add(self, rhs: Point2) -> bool {
        Self::fits(self.x + rhs.x) && Self::fits(self.y + rhs.y)
    }

    /// Whether the step that leads from `rhs` here can be held.
    pub open spec fn can_sub(self, rhs: Point2) -> bool {
        Self::fits(self.x - rhs.x) && Self::fits(self.y - rhs.y)
    }

    /// Moves the point by `rhs`.
    pub fn add_assign(&mut self, rhs: Point2)
        requires
            old(self).can_add(rhs),
        ensures
            *final(self) == old(self).plus(rhs),
    {
        self.x = self.x + rhs.x;
        self.y = self.y + rhs.y;
    }

    /// Moves the point back by `rhs`.
    pub fn sub_assign(&mut self, rhs: Point2)
        requires
            old(self).can_sub(rhs),
        ensures
            *final(self) == old(self).minus(rhs),
    {
        self.x = self.x - rhs.x;
        self.y = self.y - rhs.y;
    }
}

impl core::ops::Add for Point2 {
    type Output = Point2;

    fn add(self, rhs: Point2) -> (r: Point2) {
        Point2 { x: self.x + rhs.x, y: self.y + rhs.y }
    }
}

impl AddSpecImpl for Point2 {
    open spec fn obeys_add_spec() -> bool {
        true
    }

    open spec fn add_req(self, rhs: Point2) -> bool {
        self.can_add(rhs)
    }

    open spec fn add_spec(self, rhs: Point2) -> Point2 {
        self.plus(rhs)
    }
}

impl core::ops::Sub for Point2 {
    type Output = Point2;

    fn sub(self, rhs: Point2) -> (r: Point2) {
        Point2 { x: self.x - rhs.x, y: self.y - rhs.y }
    }
}

impl SubSpecImpl for Point2 {
    open spec fn obeys_sub_spec() -> bool {
        true
    }

    open spec fn sub_req(self, rhs: Point2) -> bool {
        self.can_sub(rhs)
    }

    open spec fn sub_spec(self, rhs: Point2) -> Point2 {
        self.minus(rhs)
    }
}

/// Whether `d` divides `a`.
pub open spec fn divides(d: int, a: int) -> bool {
    d != 0 && a % d == 0
}

/// Whether `g` is the greatest common divisor of `a` and `b`: nought where both are nought,
/// else the largest number that divides both.
pub open spec fn is_gcd(a: int, b: int, g: int) -> bool {
    &&& g >= 0
    &&& g == 0 <==> a == 0 && b == 0
    &&& g > 0 ==> divides(g, a) && divides(g, b)
    &&& a != 0 || b != 0 ==> forall|d: int| #[trigger] divides(d, a) && divides(d, b) ==> d <= g
}

/// Whether the greatest common divisor of `a` and `b` can be held: it cannot where it is
/// two to the power of thirty-one.
pub open spec fn gcd_fits(a: i32, b: i32) -> bool {
    !((a == 0 || a == i32::MIN) && (b == 0 || b == i32::MIN) && (a != 0 || b != 0))
}

/// `Integer::gcd` on two numbers of 32 bits: their greatest common divisor, which is never
/// negative.
#[verifier::external_body]
fn gcd_of(a: i32, b: i32) -> (g: i32)
    requires
        gcd_fits(a, b),
    ensures
        is_gcd(a as int, b as int, g as int),
{
    a.gcd(&b)
}

/// Two numbers have one greatest common divisor.
pub proof fn lemma_gcd_unique(a: int, b: int, g: int, h: int)
    requires
        is_gcd(a, b, g),
        is_gcd(a, b, h),
    ensures
        g == h,
{
    if a != 0 || b != 0 {
        assert(divides(g, a) && divides(g, b));
        assert(divides(h, a) && divides(h, b));
    }
}

/// Where `g` divides `a`, the quotient has the size of `a` or less, and dividing the
/// opposite number gives the opposite quotient.
pub proof fn lemma_exact_quotient(a: int, g: int)
    requires
        g > 0,
        divides(g, a),
    ensures
        a == g * (a / g),
        (-a) / g == -(a / g),
        a >= 0 ==> 0 <= a / g <= a,
        a <= 0 ==> a <= a / g <= 0,
{
    assert(a == g * (a / g) && (-a) / g == -(a / g)) by (nonlinear_arith)
        requires
            g > 0,
            a % g == 0,
    ;
    assert((a >= 0 ==> 0 <= a / g <= a) && (a <= 0 ==> a <= a / g <= 0)) by (nonlinear_arith)
        requires
            g > 0,
            a == g * (a / g),
    ;
}

/// Multiples of `v` grow or shrink with the factor, and two of them are the same only where
/// the factors are or `v` is nought.
pub proof fn lemma_scale(k: int, n: int, v: int)
    requires
        0 <= k <= n,
    ensures
        v >= 0 ==> 0 <= k * v <= n * v,
        v <= 0 ==> n * v <= k * v <= 0,
        k * v == n * v ==> k == n || v == 0,
{
    assert((v >= 0 ==> 0 <= k * v <= n * v) && (v <= 0 ==> n * v <= k * v <= 0)) by (nonlinear_arith)
        requires
            0 <= k <= n,
    ;
    assert(k * v == n * v ==> k == n || v == 0) by (nonlinear_arith);
}

/// The greatest common divisor of `a` and `b`.
pub open spec fn greatest(a: int, b: int) -> int {
    choose|g: int| is_gcd(a, b, g)
}

/// The sign of a number: -1, 0 or 1.
pub open spec fn sign(n: int) -> int {
    if n > 0 {
        1
    } else if n == 0 {
        0
    } else {
        -1
    }
}

/// Tells the sign of a number.
pub fn signum(n: i32) -> (r: i32)
    ensures
        r == sign(n as int),
{
    if n > 0 {
        1
    } else if n == 0 {
        0
    } else {
        -1
    }
}

/// A line from one point of the grid to another.
#[derive(Debug, PartialEq, Eq, Structural, Clone, Copy)]
pub struct Line2 {
    pub start: Point2,
    pub end: Point2,
}

/// What goes along a line point by point: the point that comes next, the point at which to
/// stop, and the step from one point to the next.
#[derive(Debug, PartialEq, Eq, Structural, Clone, Copy)]
pub struct Line2Iterator {
    pub point: Point2,
    pub end: Point2,
    pub vector: Vector2,
}

impl Line2 {
    /// How far the line goes along x.
    pub open spec fn dx(self) -> int {
        self.end.x - self.start.x
    }

    /// How far the line goes along y.
    pub open spec fn dy(self) -> int {
        self.end.y - self.start.y
    }

    /// Whether the step of the line can be computed: both its extents and their greatest
    /// common divisor can be held.
    pub open spec fn measurable(self) -> bool {
        &&& Point2::fits(self.dx())
        &&& Point2::fits(self.dy())
        &&& gcd_fits(self.dx() as i32, self.dy() as i32)
    }

    /// The step from one grid point of the line to the next: the extents of the line divided
    /// by their greatest common divisor.
    pub open spec fn step(self) -> Vector2 {
        if self.dx() == 0 || self.dy() == 0 {
            Point2 { x: sign(self.dx()) as i32, y: sign(self.dy()) as i32 }
        } else {
            Point2 {
                x: (self.dx() / greatest(self.dx(), self.dy())) as i32,
                y: (self.dy() / greatest(self.dx(), self.dy())) as i32,
            }
        }
    }

    /// Whether `greatest` gives the greatest common divisor of the extents of the line.
    pub open spec fn has_gcd(self) -> bool {
        is_gcd(self.dx(), self.dy(), greatest(self.dx(), self.dy()))
    }

    /// The step from one grid point of the line to the next.
    pub fn vec(&self) -> (r: Vector2)
        requires
            self.measurable(),
        ensures
            r == self.step(),
            self.has_gcd(),
    {
        let dx = self.end.x - self.start.x;
        let dy = self.end.y - self.start.y;
        let gcd = gcd_of(dx, dy);
        proof {
            lemma_gcd_unique(dx as int, dy as int, gcd as int, greatest(dx as int, dy as int));
        }
        if dx == 0 || dy == 0 {
            Point2 { x: signum(dx), y: signum(dy) }
        } else {
            proof {
                lemma_exact_quotient(dx as int, gcd as int);
                lemma_exact_quotient(dy as int, gcd as int);
            }
            Point2 { x: dx / gcd, y: dy / gcd }
        }
    }

    /// Whether the line can be gone along: its step can be computed, and the point one step
    /// after its end can be held.
    pub open spec fn walkable(self) -> bool {
        self.measurable() && self.end.can_add(self.step())
    }

    /// How many steps lead from the start of the line to its end.
    pub open spec fn steps(self) -> int {
        if self.dx() == 0 {
            self.dy() * sign(self.dy())
        } else if self.dy() == 0 {
            self.dx() * sign(self.dx())
        } else {
            greatest(self.dx(), self.dy())
        }
    }

    /// The point that lies `k` steps after the start of the line.
    pub open spec fn at(self, k: int) -> Point2 {
        Point2 {
            x: (self.start.x + k * self.step().x) as i32,
            y: (self.start.y + k * self.step().y) as i32,
        }
    }

    /// The grid points of the line from its start to its end. A line that ends where it
    /// starts has none.
    pub open spec fn trail(self) -> Seq<Point2> {
        if self.start == self.end {
            Seq::empty()
        } else {
            Seq::new((self.steps() + 1) as nat, |k: int| self.at(k))
        }
    }

    /// The steps of the line lead from its start to its end, and there is at least one step
    /// unless the line ends where it starts.
    pub proof fn lemma_steps(self)
        requires
            self.measurable(),
            self.has_gcd(),
        ensures
            self.dx() == self.steps() * self.step().x,
            self.dy() == self.steps() * self.step().y,
            self.steps() >= 0,
            self.steps() == 0 <==> self.start == self.end,
            self.start != self.end ==> self.step().x != 0 || self.step().y != 0,
    {
        let dx = self.dx();
        let dy = self.dy();
        if dx != 0 && dy != 0 {
            let g = greatest(dx, dy);
            assert(divides(1, dx) && divides(1, dy));
            lemma_exact_quotient(dx, g);
            lemma_exact_quotient(dy, g);
            assert(g * (dx / g) == (dx / g) * g && g * (dy / g) == (dy / g) * g)
                by (nonlinear_arith);
            assert(dx / g != 0) by (nonlinear_arith)
                requires
                    dx == g * (dx / g),
                    dx != 0,
            ;
        } else {
            assert(dx * sign(dx) >= 0 && (dx * sign(dx)) * sign(dx) == dx) by (nonlinear_arith)
                requires
                    sign(dx) == 1 && dx > 0 || sign(dx) == 0 && dx == 0 || sign(dx) == -1 && dx < 0,
            ;
            assert(dy * sign(dy) >= 0 && (dy * sign(dy)) * sign(dy) == dy) by (nonlinear_arith)
                requires
                    sign(dy) == 1 && dy > 0 || sign(dy) == 0 && dy == 0 || sign(dy) == -1 && dy < 0,
            ;
            assert((dx * sign(dx)) * 0 == 0 && (dy * sign(dy)) * 0 == 0) by (nonlinear_arith);
        }
    }

    /// Goes along the line and gathers its grid points.
    pub fn points(&self) -> (out: Vec<Point2>)
        requires
            self.walkable(),
        ensures
            out@ == self.trail(),
    {
        let mut it = self.into_iter();
        let mut out: Vec<Point2> = Vec::new();
        let ghost n = self.steps();
        let ghost v = self.step();
        proof {
            self.lemma_steps();
            assert(self.at(0) == self.start);
        }
        while it.point != it.end
            invariant
                self.walkable(),
                n == self.steps(),
                v == self.step(),
                self.dx() == n * v.x,
                self.dy() == n * v.y,
                n == 0 <==> self.start == self.end,
                n > 0 ==> v.x != 0 || v.y != 0,
                it.vector == v,
                it.end == self.end.plus(v),
                0 <= out.len() <= n + 1,
                it.point == self.at(out.len() as int),
                n == 0 ==> out.len() == 0 && it.point == it.end,
                forall|k: int| 0 <= k < out.len() ==> out@[k] == self.at(k),
            decreases n + 1 - out.len(),
        {
            let ghost k = out.len() as int;
            proof {
                assert((n + 1) * v.x == n * v.x + v.x && (n + 1) * v.y == n * v.y + v.y
                    && (k + 1) * v.x == k * v.x + v.x && (k + 1) * v.y == k * v.y + v.y)
                    by (nonlinear_arith);
                lemma_scale(k, n + 1, v.x as int);
                lemma_scale(k, n + 1, v.y as int);
                assert(k != n + 1);
                lemma_scale(k + 1, n + 1, v.x as int);
                lemma_scale(k + 1, n + 1, v.y as int);
                assert(Point2::fits(self.start.x + k * v.x) && Point2::fits(
                    self.start.y + k * v.y,
                ));
                assert(Point2::fits(self.start.x + (k + 1) * v.x) && Point2::fits(
                    self.start.y + (k + 1) * v.y,
                ));
            }
            let p = it.next().unwrap();
            out.push(p);
        }
        proof {
            if n > 0 {
                let k = out.len() as int;
                lemma_scale(k, n + 1, v.x as int);
                lemma_scale(k, n + 1, v.y as int);
                assert((n + 1) * v.x == n * v.x + v.x && (n + 1) * v.y == n * v.y + v.y)
                    by (nonlinear_arith);
                assert(k == n + 1);
            }
            assert(out@ =~= self.trail());
        }
        out
    }

    /// Starts to go along the line, from its start to its end.
    pub fn into_iter(&self) -> (r: Line2Iterator)
        requires
            self.walkable(),
        ensures
            r == (Line2Iterator {
                point: self.start,
                end: self.end.plus(self.step()),
                vector: self.step(),
            }),
            self.has_gcd(),
    {
        let vector = self.vec();
        Line2Iterator { point: self.start, end: self.end + vector, vector }
    }
}

impl Line2Iterator {
    /// Whether there is a point left.
    pub open spec fn more(self) -> bool {
        self.point != self.end
    }

    /// Gives the next point of the line and moves on by one step; `None` once the point to
    /// stop at has been reached.
    pub fn next(&mut self) -> (r: Option<Point2>)
        requires
            old(self).more() ==> old(self).point.can_add(old(self).vector),
        ensures
            old(self).more() ==> r == Some(old(self).point) && *final(self) == (Line2Iterator {
                point: old(self).point.plus(old(self).vector),
                end: old(self).end,
                vector: old(self).vector,
            }),
            !old(self).more() ==> r is None && *final(self) == *old(self),
    {
        if self.point == self.end {
            None
        } else {
            let res = Some(self.point);
            self.point.add_assign(self.vector);
            res
        }
    }
}

} // verus!
