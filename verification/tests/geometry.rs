use advent_of_code::geometry::{signum, Line2, Line2Iterator, Point2};

fn point(x: i32, y: i32) -> Point2 {
    Point2 { x, y }
}

fn points_of(line: &Line2) -> Vec<Point2> {
    let mut it = line.into_iter();
    let mut out = Vec::new();
    while let Some(p) = it.next() {
        out.push(p);
        assert!(out.len() < 100);
    }
    out
}

#[test]
fn geometry_add_and_sub() {
    assert_eq!(point(1, 2) + point(3, -5), point(4, -3));
    assert_eq!(point(1, 2) - point(3, -5), point(-2, 7));
    let mut p = point(10, 20);
    p.add_assign(point(-1, 1));
    assert_eq!(p, point(9, 21));
    p.sub_assign(point(9, 1));
    assert_eq!(p, point(0, 20));
    assert_eq!(
        point(2147483646, -2147483647) + point(1, -1),
        point(2147483647, -2147483648)
    );
}

#[test]
fn geometry_points_are_ordered_by_x_then_y() {
    assert!(point(1, 5) < point(2, 0));
    assert!(point(1, 5) < point(1, 6));
    assert!(point(1, 5) == point(1, 5));
}

#[test]
fn geometry_signum() {
    assert_eq!(signum(17), 1);
    assert_eq!(signum(0), 0);
    assert_eq!(signum(-17), -1);
    assert_eq!(signum(i32::MIN), -1);
}

#[test]
fn geometry_step_of_a_line() {
    let line = |a: (i32, i32), b: (i32, i32)| Line2 {
        start: point(a.0, a.1),
        end: point(b.0, b.1),
    };
    assert_eq!(line((0, 0), (6, 9)).vec(), point(2, 3));
    assert_eq!(line((0, 0), (-4, 6)).vec(), point(-2, 3));
    assert_eq!(line((5, 5), (1, 1)).vec(), point(-1, -1));
    assert_eq!(line((1, 1), (8, 4)).vec(), point(7, 3));
    assert_eq!(line((3, 3), (3, 0)).vec(), point(0, -1));
    assert_eq!(line((3, 3), (9, 3)).vec(), point(1, 0));
    assert_eq!(line((3, 3), (3, 3)).vec(), point(0, 0));
    assert_eq!(line((-10, 4), (2, -12)).vec(), point(3, -4));
}

#[test]
fn geometry_points_of_a_line() {
    let line = Line2 {
        start: point(0, 0),
        end: point(6, 9),
    };
    assert_eq!(
        points_of(&line),
        vec![point(0, 0), point(2, 3), point(4, 6), point(6, 9)]
    );
    let down = Line2 {
        start: point(3, 3),
        end: point(3, 0),
    };
    assert_eq!(
        points_of(&down),
        vec![point(3, 3), point(3, 2), point(3, 1), point(3, 0)]
    );
    let diagonal = Line2 {
        start: point(2, 0),
        end: point(0, 2),
    };
    assert_eq!(
        points_of(&diagonal),
        vec![point(2, 0), point(1, 1), point(0, 2)]
    );
}

#[test]
fn geometry_line_of_one_point_has_no_points() {
    let line = Line2 {
        start: point(4, 4),
        end: point(4, 4),
    };
    assert_eq!(
        line.into_iter(),
        Line2Iterator {
            point: point(4, 4),
            end: point(4, 4),
            vector: point(0, 0)
        }
    );
    assert_eq!(points_of(&line), vec![]);
}

#[test]
fn geometry_iterator_stops_and_stays() {
    let mut it = Line2 {
        start: point(0, 0),
        end: point(2, 0),
    }
    .into_iter();
    assert_eq!(it.end, point(3, 0));
    assert_eq!(it.next(), Some(point(0, 0)));
    assert_eq!(it.next(), Some(point(1, 0)));
    assert_eq!(it.next(), Some(point(2, 0)));
    assert_eq!(it.next(), None);
    assert_eq!(it.next(), None);
    assert_eq!(it.point, point(3, 0));
}

#[test]
fn geometry_gathered_points() {
    let line = Line2 {
        start: point(0, 0),
        end: point(6, 9),
    };
    assert_eq!(line.points(), points_of(&line));
    assert_eq!(
        line.points(),
        vec![point(0, 0), point(2, 3), point(4, 6), point(6, 9)]
    );
    let back = Line2 {
        start: point(1, -1),
        end: point(-5, -1),
    };
    assert_eq!(
        back.points(),
        vec![
            point(1, -1),
            point(0, -1),
            point(-1, -1),
            point(-2, -1),
            point(-3, -1),
            point(-4, -1),
            point(-5, -1)
        ]
    );
    let single = Line2 {
        start: point(7, 7),
        end: point(7, 7),
    };
    assert_eq!(single.points(), vec![]);
    let steep = Line2 {
        start: point(0, 0),
        end: point(1, 1000),
    };
    assert_eq!(steep.points(), vec![point(0, 0), point(1, 1000)]);
}
