use std::f64::consts::PI;
use std::ops::{Add, Mul, Sub};

use visgraph::{
    collinear_overlap, contains, is_in_connectable_range, Corner, Cost, Navigation, NavigationInternal,
    NavigationObstacle, Overlap, Segment, Shape, ShapeWindingOrder,
};

// The plane of these tests: points with two coordinates, and what is measured on them.

#[derive(Debug, Clone, Copy, PartialEq)]
struct Vec2 {
    x: f64,
    y: f64,
}

impl Vec2 {
    fn new(x: f64, y: f64) -> Self {
        Vec2 { x, y }
    }
    fn unit(direction: f64) -> Self {
        Vec2::new(direction.cos(), direction.sin())
    }
    fn dist_squared(self, other: Vec2) -> f64 {
        (self.x - other.x).powi(2) + (self.y - other.y).powi(2)
    }
    fn dist(self, other: Vec2) -> f64 {
        self.dist_squared(other).sqrt()
    }
    fn cross(self, rhs: Self) -> f64 {
        self.x * rhs.y - self.y * rhs.x
    }
    fn atan2(self) -> f64 {
        self.y.atan2(self.x)
    }
}

impl Add for Vec2 {
    type Output = Vec2;
    fn add(self, rhs: Self) -> Vec2 {
        Vec2::new(self.x + rhs.x, self.y + rhs.y)
    }
}

impl Sub for Vec2 {
    type Output = Vec2;
    fn sub(self, rhs: Self) -> Vec2 {
        Vec2::new(self.x - rhs.x, self.y - rhs.y)
    }
}

impl Mul<f64> for Vec2 {
    type Output = Vec2;
    fn mul(self, rhs: f64) -> Vec2 {
        Vec2::new(self.x * rhs, self.y * rhs)
    }
}

impl From<(f64, f64)> for Vec2 {
    fn from((x, y): (f64, f64)) -> Self {
        Vec2 { x, y }
    }
}

type Line = Segment<Vec2>;

fn new_flat(p0x: f64, p0y: f64, p1x: f64, p1y: f64) -> Line {
    Segment::new(Vec2::new(p0x, p0y), Vec2::new(p1x, p1y))
}

fn is_vertical(line: &Line) -> bool {
    (line.p0.x - line.p1.x).abs() <= f64::EPSILON
}

fn slope(line: &Line) -> f64 {
    (line.p1.y - line.p0.y) / (line.p1.x - line.p0.x)
}

fn meet_vertical(this: &Line, upright: &Line) -> Option<Vec2> {
    if contains(this.p0.x, this.p1.x, upright.p0.x) {
        let intersect_y = this.p0.y + (upright.p0.x - this.p0.x) * slope(this);
        if contains(upright.p0.y, upright.p1.y, intersect_y) {
            Some(Vec2::new(upright.p0.x, intersect_y))
        } else {
            None
        }
    } else {
        None
    }
}

fn overlap_point(this: &Line, other: &Line, overlap: Overlap) -> Option<Vec2> {
    match overlap {
        Overlap::Disjoint => None,
        Overlap::OwnStart => Some(this.p0),
        Overlap::OtherStart => Some(other.p0),
        Overlap::OtherEnd => Some(other.p1),
    }
}

fn intersect_segment(this: &Line, other: &Line) -> Option<Vec2> {
    if is_vertical(this) {
        if is_vertical(other) {
            if (this.p0.x - other.p0.x).abs() >= f64::EPSILON {
                return None;
            }
            overlap_point(
                this,
                other,
                collinear_overlap((this.p0.y, this.p1.y), (other.p0.y, other.p1.y)),
            )
        } else {
            meet_vertical(other, this)
        }
    } else if is_vertical(other) {
        meet_vertical(this, other)
    } else {
        let this_slope = slope(this);
        let other_slope = slope(other);
        if (this_slope - other_slope).abs() <= f64::EPSILON {
            let other_at_this_start = other.p0.y - this_slope * (other.p0.x - this.p0.x);
            if (other_at_this_start - this.p0.y).abs() >= f64::EPSILON {
                None
            } else {
                overlap_point(
                    this,
                    other,
                    collinear_overlap((this.p0.x, this.p1.x), (other.p0.x, other.p1.x)),
                )
            }
        } else {
            let this_at_other_start = this.p0.y + this_slope * (other.p0.x - this.p0.x);
            let slope_diff = this_slope - other_slope;
            let intersect_x = other.p0.x + (other.p0.y - this_at_other_start) / slope_diff;
            if contains(this.p0.x, this.p1.x, intersect_x) && contains(other.p0.x, other.p1.x, intersect_x) {
                Some(Vec2::new(intersect_x, this.p0.y + this_slope * (intersect_x - this.p0.x)))
            } else {
                None
            }
        }
    }
}

fn shape_intersect(shape: &Shape<Vec2>, other: &Line) -> Option<Vec2> {
    let mut closest_intersection: Option<Vec2> = None;
    let mut closest_dist_squared: f64 = f64::INFINITY;
    for segment in shape.segments().to_vec() {
        if let Some(intersection) = intersect_segment(other, &segment) {
            let dist = other.p0.dist_squared(intersection);
            if dist < closest_dist_squared {
                closest_intersection = Some(intersection);
                closest_dist_squared = dist;
            }
        }
    }
    closest_intersection
}

fn winding_order(vertices: &[Vec2]) -> ShapeWindingOrder {
    let mut doubled_area = 0.;
    for (i, vertex) in vertices.iter().enumerate() {
        doubled_area += vertex.cross(vertices[(i + 1) % vertices.len()]);
    }
    if doubled_area > 0. {
        ShapeWindingOrder::Clockwise
    } else {
        ShapeWindingOrder::CounterClockwise
    }
}

fn bound_turn(angle: f64) -> f64 {
    if angle > 2. * PI {
        angle - 2. * PI
    } else if angle <= 0. {
        angle + 2. * PI
    } else {
        angle
    }
}

fn bound_direction(direction: f64) -> f64 {
    if direction > PI {
        direction - 2. * PI
    } else if direction <= -PI {
        direction + 2. * PI
    } else {
        direction
    }
}

fn is_reflex(prev: Vec2, vertex: Vec2, next: Vec2) -> bool {
    bound_turn((next - vertex).atan2() - (prev - vertex).atan2()) < PI
}

fn offset_corner(prev: Vec2, vertex: Vec2, next: Vec2, delta: f64, resolution: f64) -> Corner<Vec2> {
    let prev_direction = (prev - vertex).atan2();
    let next_direction = (next - vertex).atan2();
    let theta = bound_turn(next_direction - prev_direction);
    let reflex = theta < PI;
    let mut points = vec![];
    if reflex {
        let start_direction = bound_direction(prev_direction - PI / 2.);
        let end_direction = bound_direction(next_direction + PI / 2.);
        let angle_diff = bound_turn(start_direction - end_direction);
        if angle_diff != 2. * PI {
            let steps = (angle_diff / resolution).round().max(1.);
            let step_angle = angle_diff / steps;
            let mut current_direction = start_direction;
            for _ in 0..(steps as usize) + 1 {
                points.push(vertex + Vec2::unit(current_direction) * delta);
                current_direction = bound_direction(current_direction - step_angle);
            }
        }
    } else {
        let side_length = delta / (2. * PI - theta).sin();
        points.push(vertex + Vec2::unit(prev_direction) * side_length + Vec2::unit(next_direction) * side_length);
    }
    Corner { reflex, points }
}

fn bound_angle(angle: f64) -> f64 {
    if angle > PI {
        angle - 2. * PI
    } else if angle < -PI {
        angle + 2. * PI
    } else {
        angle
    }
}

fn in_range(prev: Vec2, vertex: Vec2, next: Vec2, target: Vec2) -> bool {
    let a = (prev - vertex).atan2();
    let b = (next - vertex).atan2();
    let c = (target - vertex).atan2();
    is_in_connectable_range(a, b, c, bound_angle(a + PI), bound_angle(b + PI))
}

fn crosses(segment: Line, boundary: Line) -> bool {
    match intersect_segment(&segment, &boundary) {
        Some(point) => {
            point.dist_squared(segment.p0) > f64::EPSILON && point.dist_squared(segment.p1) > f64::EPSILON
        }
        None => false,
    }
}

fn measure(from: Vec2, to: Vec2) -> Cost {
    Cost::from_bits(from.dist(to).to_bits()).unwrap()
}

fn obstacle(vertices: &[(f64, f64)]) -> NavigationObstacle<Vec2> {
    let vertices: Vec<Vec2> = vertices.iter().map(|&vertex| vertex.into()).collect();
    let winding = winding_order(&vertices);
    NavigationObstacle::new(vertices, winding, &is_reflex)
}

type Plane = Navigation<Vec2, fn(Vec2, Vec2, Vec2, Vec2) -> bool, fn(Line, Line) -> bool, fn(Vec2, Vec2) -> Cost>;

fn navigation(obstacles: &[&[(f64, f64)]]) -> Plane {
    Navigation::new(
        obstacles.iter().map(|vertices| obstacle(vertices)).collect(),
        in_range as fn(Vec2, Vec2, Vec2, Vec2) -> bool,
        crosses as fn(Line, Line) -> bool,
        measure as fn(Vec2, Vec2) -> Cost,
    )
}

fn find_path(navigation: &Plane, start: (f64, f64), end: (f64, f64)) -> Option<Vec<Vec2>> {
    navigation.find_path(start.into(), end.into())
}

fn marks(obstacle: &NavigationObstacle<Vec2>) -> Vec<bool> {
    (0..obstacle.len()).map(|index| obstacle.is_reflex(index)).collect()
}

fn places(vertices: &[(f64, f64)]) -> Vec<Vec2> {
    vertices.iter().map(|&vertex| vertex.into()).collect()
}

fn length(path: &[Vec2]) -> f64 {
    path.windows(2).map(|leg| leg[0].dist(leg[1])).sum()
}

const SQUARE: [(f64, f64); 4] = [(2., 2.), (8., 2.), (8., 8.), (2., 8.)];
const ELL: [(f64, f64); 6] = [(4., 6.), (14., 6.), (14., 11.), (9., 11.), (9., 16.), (4., 16.)];

// Intersections of segments.

fn test_segment_intersection(seg0: Line, seg1: Line, intersection: Option<Vec2>) {
    println!("Intersecting {:?} with {:?}, expecting {:?}.", seg0, seg1, intersection);
    assert_eq!(intersect_segment(&seg0, &seg1), intersection);
}

fn test_segment_intersection_both_direction(seg0: Line, seg1: Line, intersection: Option<Vec2>) {
    test_segment_intersection(seg0, seg1, intersection);
    test_segment_intersection(seg1, seg0, intersection);
}

fn test_segment_intersection_switch_vert(
    vert: (((f64, f64), (f64, f64)), ((f64, f64), (f64, f64))),
    intersection: Option<Vec2>,
) {
    test_segment_intersection_both_direction(
        Segment::new(((vert.0).0).into(), ((vert.0).1).into()),
        Segment::new(((vert.1).0).into(), ((vert.1).1).into()),
        intersection,
    );
    test_segment_intersection_both_direction(
        Segment::new(((vert.0).1).into(), ((vert.0).0).into()),
        Segment::new(((vert.1).0).into(), ((vert.1).1).into()),
        intersection,
    );
    test_segment_intersection_both_direction(
        Segment::new(((vert.0).0).into(), ((vert.0).1).into()),
        Segment::new(((vert.1).1).into(), ((vert.1).0).into()),
        intersection,
    );
    test_segment_intersection_both_direction(
        Segment::new(((vert.0).1).into(), ((vert.0).0).into()),
        Segment::new(((vert.1).1).into(), ((vert.1).0).into()),
        intersection,
    );
}

#[test]
fn segment_find_intersection_with_segment_no_vertical() {
    test_segment_intersection_switch_vert(
        (((1., 1.), (10., 10.)), ((0., 10.), (10., 0.))),
        Some(Vec2::new(5., 5.)),
    );
    test_segment_intersection_switch_vert((((1., 1.), (5., 5.)), ((0., 10.), (10., 0.))), Some(Vec2::new(5., 5.)));
    test_segment_intersection_switch_vert((((1., 1.), (4., 4.)), ((0., 10.), (10., 0.))), None);
    test_segment_intersection_switch_vert((((1., 1.), (10., 10.)), ((0., 10.), (4., 6.))), None);
    test_segment_intersection_switch_vert((((0., 0.), (5., 5.)), ((5., 5.), (10., 0.))), Some(Vec2::new(5., 5.)));
}

#[test]
fn segment_find_intersection_with_segment_one_vertical() {
    test_segment_intersection_switch_vert((((5., 5.), (5., 10.)), ((2., 8.), (8., 8.))), Some(Vec2::new(5., 8.)));
    test_segment_intersection_switch_vert(
        (((5., 5.), (5., 10.)), ((2., 10.), (8., 10.))),
        Some(Vec2::new(5., 10.)),
    );
    test_segment_intersection_switch_vert((((5., 5.), (5., 10.)), ((2., 10.), (8., 11.))), None);
}

#[test]
fn segment_find_intersection_with_segment_two_vertical() {
    test_segment_intersection_switch_vert((((5., 5.), (5., 10.)), ((10., 5.), (10., 10.))), None);
}

#[test]
fn segment_find_intersection_with_segment_vertical_collinear() {
    test_segment_intersection_switch_vert((((5., 5.), (5., 10.)), ((5., 15.), (5., 20.))), None);
    test_segment_intersection_switch_vert(
        (((5., 5.), (5., 10.)), ((5., 10.), (5., 15.))),
        Some(Vec2::new(5., 10.)),
    );
    test_segment_intersection(
        new_flat(5., 5., 5., 20.),
        new_flat(5., 10., 5., 15.),
        Some(Vec2::new(5., 10.)),
    );
    test_segment_intersection(
        new_flat(5., 10., 5., 20.),
        new_flat(5., 5., 5., 15.),
        Some(Vec2::new(5., 10.)),
    );
    test_segment_intersection(
        new_flat(5., 20., 5., 5.),
        new_flat(5., 10., 5., 15.),
        Some(Vec2::new(5., 15.)),
    );
    test_segment_intersection(
        new_flat(5., 15., 5., 10.),
        new_flat(5., 5., 5., 20.),
        Some(Vec2::new(5., 15.)),
    );
}

#[test]
fn segment_find_intersection_with_segment_parallel() {
    test_segment_intersection_switch_vert((((5., 5.), (10., 10.)), ((10., 5.), (15., 10.))), None);
    test_segment_intersection_switch_vert((((5., 5.), (10., 5.)), ((5., 10.), (10., 10.))), None);
}

#[test]
fn segment_find_intersection_with_segment_collinear() {
    test_segment_intersection_switch_vert((((5., 10.), (10., 20.)), ((15., 30.), (20., 40.))), None);
    test_segment_intersection_switch_vert(
        (((5., 10.), (10., 20.)), ((10., 20.), (15., 30.))),
        Some(Vec2::new(10., 20.)),
    );
    test_segment_intersection(
        new_flat(5., 10., 15., 30.),
        new_flat(10., 20., 20., 40.),
        Some(Vec2::new(10., 20.)),
    );
    test_segment_intersection(
        new_flat(20., 40., 10., 20.),
        new_flat(5., 10., 15., 30.),
        Some(Vec2::new(15., 30.)),
    );
    test_segment_intersection(
        new_flat(10., 20., 15., 30.),
        new_flat(5., 10., 20., 40.),
        Some(Vec2::new(10., 20.)),
    );
    test_segment_intersection(
        new_flat(15., 30., 10., 20.),
        new_flat(5., 10., 20., 40.),
        Some(Vec2::new(15., 30.)),
    );
}

#[test]
fn points() {
    test_segment_intersection_switch_vert((((5., 5.), (5., 5.)), ((6., 1.), (6., 9.))), None);
    test_segment_intersection_switch_vert((((5., 5.), (5., 5.)), ((6., 1.), (7., 9.))), None);
    test_segment_intersection_switch_vert((((5., 5.), (5., 5.)), ((6., 6.), (6., 6.))), None);
    test_segment_intersection_switch_vert((((5., 5.), (5., 5.)), ((5., 5.), (5., 5.))), Some(Vec2::new(5., 5.)));
    test_segment_intersection_switch_vert((((5., 5.), (5., 5.)), ((5., 3.), (5., 8.))), Some(Vec2::new(5., 5.)));
    test_segment_intersection_switch_vert((((5., 5.), (5., 5.)), ((5., 5.), (5., 8.))), Some(Vec2::new(5., 5.)));
    test_segment_intersection_switch_vert((((5., 5.), (5., 5.)), ((5., 5.), (7., 6.))), Some(Vec2::new(5., 5.)));
}

#[test]
fn shape_intersect_segment() {
    assert_eq!(
        shape_intersect(&Shape::new(places(&SQUARE)), &new_flat(5., 1., 5., 10.)),
        Some(Vec2::new(5., 2.))
    );
    assert_eq!(
        shape_intersect(&Shape::new(places(&SQUARE)), &new_flat(5., 10., 5., 1.)),
        Some(Vec2::new(5., 8.))
    );
    assert_eq!(
        shape_intersect(&Shape::new(places(&SQUARE)), &new_flat(1., 10., 1., 1.)),
        None
    );
}

// Obstacles.

#[test]
fn obstacle_keeps_a_counter_clockwise_polygon_as_it_is() {
    let built = NavigationObstacle::new(places(&SQUARE), ShapeWindingOrder::CounterClockwise, &is_reflex);
    assert_eq!(built.shape().vertices, places(&SQUARE));
    assert_eq!(built.len(), 4);
}

#[test]
fn obstacle_turns_a_clockwise_polygon_around() {
    let built = NavigationObstacle::new(places(&SQUARE), ShapeWindingOrder::Clockwise, &is_reflex);
    assert_eq!(built.shape().vertices, places(&[(2., 8.), (8., 8.), (8., 2.), (2., 2.)]));
}

#[test]
fn obstacle_asks_about_each_vertex_with_its_neighbours() {
    let asked = std::cell::RefCell::new(vec![]);
    let built = NavigationObstacle::new(vec![1, 2, 3, 4], ShapeWindingOrder::CounterClockwise, &|prev: i32,
                                                                                                   vertex: i32,
                                                                                                   next: i32| {
        asked.borrow_mut().push((prev, vertex, next));
        vertex % 2 == 0
    });
    assert_eq!(*asked.borrow(), vec![(4, 1, 2), (1, 2, 3), (2, 3, 4), (3, 4, 1)]);
    assert_eq!(
        (0..4).map(|index| built.is_reflex(index)).collect::<Vec<bool>>(),
        vec![false, true, false, true]
    );
}

#[test]
fn obstacle_without_vertices() {
    let asked = std::cell::Cell::new(0);
    let built = NavigationObstacle::new(Vec::<i32>::new(), ShapeWindingOrder::Clockwise, &|_: i32, _: i32, _: i32| {
        asked.set(asked.get() + 1);
        true
    });
    assert_eq!(built.len(), 0);
    assert!(built.shape().is_empty());
    assert_eq!(asked.get(), 0);
}

#[test]
fn square_turns_outward_at_every_corner() {
    assert_eq!(marks(&obstacle(&SQUARE)), vec![true, true, true, true]);
}

#[test]
fn ell_turns_inward_at_its_inner_corner_only() {
    let built = obstacle(&ELL);
    let inner = built
        .shape()
        .vertices
        .iter()
        .position(|&vertex| vertex == Vec2::new(9., 11.))
        .unwrap();
    for index in 0..built.len() {
        assert_eq!(built.is_reflex(index), index != inner);
    }
}

#[test]
fn expand_puts_the_points_of_each_corner_in_a_row() {
    let built = NavigationObstacle::new(vec![10, 20, 30], ShapeWindingOrder::CounterClockwise, &|_: i32,
                                                                                                  _: i32,
                                                                                                  _: i32| {
        false
    });
    let grown = built.expand(&|prev: i32, vertex: i32, next: i32| match vertex {
        10 => Corner { reflex: true, points: vec![prev, vertex, next] },
        20 => Corner { reflex: true, points: vec![] },
        _ => Corner { reflex: false, points: vec![vertex + 1] },
    });
    assert_eq!(grown.shape().vertices, vec![30, 10, 20, 31]);
    assert_eq!(
        (0..grown.len()).map(|index| grown.is_reflex(index)).collect::<Vec<bool>>(),
        vec![true, true, true, false]
    );
    // The obstacle itself stays as it was.
    assert_eq!(built.shape().vertices, vec![10, 20, 30]);
    assert_eq!(
        (0..built.len()).map(|index| built.is_reflex(index)).collect::<Vec<bool>>(),
        vec![false, false, false]
    );
}

#[test]
fn expanded_square_keeps_its_distance() {
    for resolution in [PI / 2., PI / 4., PI / 16., 0.3, 7.] {
        let square = obstacle(&SQUARE);
        let grown = square.expand(&|prev: Vec2, vertex: Vec2, next: Vec2| {
            offset_corner(prev, vertex, next, 1., resolution)
        });
        let outline = &grown.shape().vertices;
        assert!(outline.len() >= 8);
        assert!(marks(&grown).iter().all(|&mark| mark));
        for &point in outline.iter() {
            // Every point is at distance 1 from the corner it belongs to, and
            // not nearer to any other.
            let nearest = places(&SQUARE)
                .iter()
                .map(|&corner| corner.dist(point))
                .fold(f64::INFINITY, f64::min);
            assert!((nearest - 1.).abs() < 1e-9);
            assert!(point.x < 2. + 1e-9 || point.x > 8. - 1e-9 || point.y < 2. + 1e-9 || point.y > 8. - 1e-9);
        }
        // Each side has moved outward by 1.
        for expected in [
            (2., 1.),
            (8., 1.),
            (9., 2.),
            (9., 8.),
            (8., 9.),
            (2., 9.),
            (1., 8.),
            (1., 2.),
        ] {
            assert!(outline
                .iter()
                .any(|&point| point.dist(expected.into()) < 1e-9));
        }
        // The outline turns the same way all around.
        for index in 0..outline.len() {
            let here = outline[index];
            let next = outline[(index + 1) % outline.len()];
            let after = outline[(index + 2) % outline.len()];
            assert!((next - here).cross(after - next) <= 1e-9);
        }
    }
}

// Queries.

#[test]
fn find_path_on_an_empty_plane_is_the_straight_line() {
    let plane = navigation(&[]);
    assert_eq!(plane.node_count(), 0);
    assert_eq!(find_path(&plane, (0., 0.), (20., 20.)), Some(places(&[(0., 0.), (20., 20.)])));
    assert_eq!(find_path(&plane, (3., 4.), (3., 4.)), Some(places(&[(3., 4.), (3., 4.)])));
}

#[test]
fn find_path_past_an_obstacle_is_the_straight_line() {
    let plane = navigation(&[&SQUARE]);
    assert_eq!(find_path(&plane, (0., 0.), (20., 0.)), Some(places(&[(0., 0.), (20., 0.)])));
    assert_eq!(find_path(&plane, (0., 10.), (10., 10.)), Some(places(&[(0., 10.), (10., 10.)])));
}

#[test]
fn find_path_goes_around_a_square() {
    let plane = navigation(&[&SQUARE]);
    let path = find_path(&plane, (0., 4.), (10., 4.)).unwrap();
    assert_eq!(path, places(&[(0., 4.), (2., 2.), (8., 2.), (10., 4.)]));
    let back = find_path(&plane, (10., 4.), (0., 4.)).unwrap();
    assert_eq!(back, places(&[(10., 4.), (8., 2.), (2., 2.), (0., 4.)]));
    let over = find_path(&plane, (0., 6.), (10., 6.)).unwrap();
    assert_eq!(over, places(&[(0., 6.), (2., 8.), (8., 8.), (10., 6.)]));
}

#[test]
fn find_path_bends_at_a_reflex_vertex_of_an_ell() {
    let plane = navigation(&[&ELL]);
    let path = find_path(&plane, (0., 0.), (20., 20.)).unwrap();
    assert_eq!(path, places(&[(0., 0.), (14., 6.), (20., 20.)]));
    let built = obstacle(&ELL);
    let corner = built
        .shape()
        .vertices
        .iter()
        .position(|&vertex| vertex == path[1])
        .unwrap();
    assert!(built.is_reflex(corner));
    assert!((length(&path) - 2. * 232f64.sqrt()).abs() < 1e-9);
}

#[test]
fn find_path_between_two_obstacles() {
    let left: [(f64, f64); 4] = [(2., 0.), (4., 0.), (4., 10.), (2., 10.)];
    let right: [(f64, f64); 4] = [(8., -10.), (10., -10.), (10., 3.), (8., 3.)];
    let plane = navigation(&[&left, &right]);
    let path = find_path(&plane, (0., 1.), (12., 1.)).unwrap();
    assert_eq!(path, places(&[(0., 1.), (2., 0.), (4., 0.), (8., 3.), (10., 3.), (12., 1.)]));
}

#[test]
fn find_path_finds_no_way_out_of_a_ring() {
    // A ring with a point inside: the walls leave no gap.
    let outer: [(f64, f64); 10] = [
        (0., 0.),
        (10., 0.),
        (10., 10.),
        (0., 10.),
        (0., 0.5),
        (1., 0.5),
        (1., 9.),
        (9., 9.),
        (9., 1.),
        (0., 1.),
    ];
    let plane = navigation(&[&outer]);
    assert_eq!(find_path(&plane, (5., 5.), (20., 5.)), None);
}

#[test]
fn navigation_graph_links_run_both_ways() {
    let left: [(f64, f64); 4] = [(2., 0.), (4., 0.), (4., 10.), (2., 10.)];
    let right: [(f64, f64); 4] = [(8., -10.), (10., -10.), (10., 3.), (8., 3.)];
    let plane = navigation(&[&left, &ELL, &right]);
    let links = plane.internal_navigation_graph();
    assert!(!links.is_empty());
    for link in &links {
        assert!(links.iter().any(|back| back.p0 == link.p1 && back.p1 == link.p0));
        assert_ne!(link.p0, link.p1);
    }
}

#[test]
fn navigation_graph_of_a_square_is_its_outline() {
    let plane = navigation(&[&SQUARE]);
    assert_eq!(plane.node_count(), 4);
    let links = plane.internal_navigation_graph();
    // Each corner sees its two neighbours, and the square hides the opposite one.
    assert_eq!(links.len(), 8);
    for link in &links {
        assert_eq!(link.p0.dist(link.p1), 6.);
    }
}

#[test]
fn navigation_shows_its_obstacles() {
    let plane = navigation(&[&SQUARE, &ELL]);
    let outlines = plane.internal_obstacles();
    assert_eq!(outlines.len(), 2);
    assert_eq!(outlines[0].vertices.len(), 4);
    assert_eq!(outlines[1].vertices.len(), 6);
    let mut square = places(&SQUARE);
    square.reverse();
    assert_eq!(outlines[0].vertices, square);
}

#[test]
fn navigation_has_a_node_for_each_reflex_vertex_only() {
    // Four corners of the square, five of the six of the ell, none of nothing.
    let plane = navigation(&[&SQUARE, &ELL, &[]]);
    assert_eq!(plane.node_count(), 9);
    let asked = std::cell::Cell::new(0);
    let odd = NavigationObstacle::new(vec![1, 2, 3, 4, 5], ShapeWindingOrder::CounterClockwise, &|_: i32,
                                                                                                 vertex: i32,
                                                                                                 _: i32| {
        vertex % 2 == 1
    });
    let graph = visgraph::build_navigation_graph(
        &vec![odd],
        &|_: i32, _: i32, _: i32, _: i32| {
            asked.set(asked.get() + 1);
            false
        },
        &|_: Segment<i32>, _: Segment<i32>| false,
    );
    // Nodes 0, 1, 2 are the vertices 1, 3, 5; the others have none and are
    // never asked about.
    assert_eq!(graph.iter().map(|node| node.position).collect::<Vec<i32>>(), vec![1, 3, 5]);
    assert!(graph.iter().all(|node| node.connections == vec![4]));
    assert_eq!(asked.get(), 3);
}

#[test]
fn navigation_graph_nodes_keep_the_end_in_front() {
    let obstacles = vec![obstacle(&SQUARE), obstacle(&ELL)];
    let graph = visgraph::build_navigation_graph(&obstacles, &in_range, &crosses);
    assert_eq!(graph.len(), 9);
    let mut id = 0;
    for built in &obstacles {
        for index in 0..built.len() {
            if !built.is_reflex(index) {
                // No node stands for a vertex that is not reflex.
                assert!(graph.iter().all(|node| node.position != built.shape().vertices[index]));
                continue;
            }
            let node = &graph[id];
            assert_eq!(node.position, built.shape().vertices[index]);
            // The id of a query's end comes first; the links follow in
            // ascending order, and none leads to the node itself.
            assert_eq!(node.connections[0], 10);
            let links = &node.connections[1..];
            assert!(links.windows(2).all(|pair| pair[0] < pair[1]));
            assert!(links.iter().all(|&to| to < 9 && to != id));
            for &to in links {
                assert!(graph[to].connections[1..].contains(&id));
            }
            id += 1;
        }
    }
    assert_eq!(id, 9);
}

#[test]
fn navigation_graph_asks_each_pair_once() {
    let asked = std::cell::RefCell::new(vec![]);
    let obstacles = vec![obstacle(&[(0., 0.), (0., 1.), (1., 0.)]), obstacle(&[(5., 5.), (5., 6.), (6., 5.)])];
    let every_corner = marks(&obstacles[0]).iter().chain(marks(&obstacles[1]).iter()).all(|&mark| mark);
    assert!(every_corner);
    let graph = visgraph::build_navigation_graph(
        &obstacles,
        &|_: Vec2, vertex: Vec2, _: Vec2, target: Vec2| {
            asked.borrow_mut().push((vertex, target));
            true
        },
        &|_: Line, _: Line| false,
    );
    // Six vertices, every pair asked about from both ends, the later vertex first.
    assert_eq!(asked.borrow().len(), 30);
    let places: Vec<Vec2> = graph.iter().map(|node| node.position).collect();
    let mut expected = vec![];
    for later in 0..6 {
        for earlier in 0..later {
            expected.push((places[later], places[earlier]));
            expected.push((places[earlier], places[later]));
        }
    }
    assert_eq!(*asked.borrow(), expected);
    for (id, node) in graph.iter().enumerate() {
        let others: Vec<usize> = (0..6).filter(|&other| other != id).collect();
        assert_eq!(node.connections[0], 7);
        assert_eq!(node.connections[1..], others[..]);
    }
}

#[test]
fn navigation_graph_skips_the_edge_that_joins_two_neighbours() {
    let asked = std::cell::RefCell::new(vec![]);
    let obstacles = vec![obstacle(&[(0., 0.), (0., 1.), (1., 0.)])];
    let corners = obstacles[0].shape().vertices.clone();
    visgraph::build_navigation_graph(
        &obstacles,
        &|_: Vec2, _: Vec2, _: Vec2, _: Vec2| true,
        &|segment: Line, boundary: Line| {
            asked.borrow_mut().push((segment, boundary));
            false
        },
    );
    let side = |from: usize, to: usize| Segment::new(corners[from], corners[to]);
    let same = |a: &Line, b: &Line| a.p0 == b.p0 && a.p1 == b.p1;
    let expected = vec![
        // Vertices 1 and 0 are joined by side 0.
        (side(1, 0), side(1, 2)),
        (side(1, 0), side(2, 0)),
        // Vertices 2 and 0 are joined by side 2.
        (side(2, 0), side(0, 1)),
        (side(2, 0), side(1, 2)),
        // Vertices 2 and 1 are joined by side 1.
        (side(2, 1), side(0, 1)),
        (side(2, 1), side(2, 0)),
    ];
    let asked = asked.borrow();
    assert_eq!(asked.len(), expected.len());
    for (question, wanted) in asked.iter().zip(expected.iter()) {
        assert!(same(&question.0, &wanted.0) && same(&question.1, &wanted.1));
    }
}

#[test]
fn intersects_with_obstacle_stops_at_the_first_crossing() {
    let asked = std::cell::Cell::new(0);
    let obstacles = vec![obstacle(&SQUARE), obstacle(&ELL)];
    let third = obstacles[0].shape().segment(2);
    let found = visgraph::intersects_with_obstacle(
        &obstacles,
        &|_: Line, boundary: Line| {
            asked.set(asked.get() + 1);
            boundary.p0 == third.p0 && boundary.p1 == third.p1
        },
        new_flat(0., 0., 1., 1.),
    );
    assert!(found);
    assert_eq!(asked.get(), 3);
    asked.set(0);
    let found = visgraph::intersects_with_obstacle(
        &obstacles,
        &|_: Line, _: Line| {
            asked.set(asked.get() + 1);
            false
        },
        new_flat(0., 0., 1., 1.),
    );
    assert!(!found);
    assert_eq!(asked.get(), 10);
}

#[test]
fn intersects_with_obstacle_on_the_plane() {
    let obstacles = vec![obstacle(&SQUARE)];
    assert!(visgraph::intersects_with_obstacle(&obstacles, &crosses, new_flat(0., 5., 10., 5.)));
    assert!(!visgraph::intersects_with_obstacle(&obstacles, &crosses, new_flat(0., 0., 10., 0.)));
    assert!(!visgraph::intersects_with_obstacle(&vec![], &crosses, new_flat(0., 5., 10., 5.)));
}

#[test]
fn find_path_measures_between_places_of_the_query() {
    let asked = std::cell::RefCell::new(vec![]);
    let plane = Navigation::new(vec![obstacle(&SQUARE)], in_range, crosses, |from: Vec2, to: Vec2| {
        asked.borrow_mut().push((from, to));
        measure(from, to)
    });
    let start = Vec2::new(0., 4.);
    let end = Vec2::new(10., 4.);
    let path = plane.find_path(start, end).unwrap();
    assert_eq!(path, places(&[(0., 4.), (2., 2.), (8., 2.), (10., 4.)]));
    let corners = places(&SQUARE);
    assert_eq!(asked.borrow()[0], (start, end));
    for &(from, to) in asked.borrow().iter() {
        assert!(from == start || from == end || corners.contains(&from));
        assert!(to == end || corners.contains(&to));
    }
}

#[test]
fn find_path_from_a_point_to_itself() {
    let plane = navigation(&[&SQUARE]);
    assert_eq!(find_path(&plane, (0., 0.), (0., 0.)), Some(places(&[(0., 0.), (0., 0.)])));
}

#[test]
fn obstacles_with_one_or_two_vertices_have_no_corner_to_bend_at() {
    let dot = obstacle(&[(5., 5.)]);
    assert_eq!(marks(&dot), vec![false]);
    let wall = obstacle(&[(5., 0.), (5., 10.)]);
    assert_eq!(marks(&wall), vec![false, false]);
    let plane = navigation(&[&[(5., 5.)], &[(5., 0.), (5., 10.)], &[]]);
    assert_eq!(plane.node_count(), 0);
    assert!(plane.internal_navigation_graph().is_empty());
    assert_eq!(plane.internal_obstacles().len(), 3);
    // Nothing crosses the wall, and nothing leads around it.
    assert_eq!(find_path(&plane, (0., 5.), (10., 5.)), None);
    assert_eq!(find_path(&plane, (0., 20.), (10., 20.)), Some(places(&[(0., 20.), (10., 20.)])));
}
