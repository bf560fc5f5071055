use visgraph::{Segment, Shape, ShapeWindingOrder};

#[derive(Debug, Clone, Copy, PartialEq)]
struct Vec2 {
    x: f64,
    y: f64,
}

impl Vec2 {
    fn new(x: f64, y: f64) -> Self {
        Vec2 { x, y }
    }
}

fn new_flat(p0x: f64, p0y: f64, p1x: f64, p1y: f64) -> Segment<Vec2> {
    Segment::new(Vec2::new(p0x, p0y), Vec2::new(p1x, p1y))
}

fn same_direction(a: &[Segment<Vec2>], b: &[Segment<Vec2>]) -> bool {
    a.len() == b.len() && a.iter().zip(b.iter()).all(|(s, t)| s.p0 == t.p0 && s.p1 == t.p1)
}

fn walk(shape: &Shape<Vec2>) -> Vec<Segment<Vec2>> {
    let mut iter = shape.segments().into_iter();
    let mut found = vec![];
    while let Some(segment) = iter.next() {
        found.push(segment);
    }
    assert!(iter.next().is_none());
    found
}

#[test]
fn segment_eq() {
    assert_eq!(new_flat(0., 0., 10., 10.), new_flat(0., 0., 10., 10.));
}

#[test]
fn segment_ne() {
    assert_ne!(new_flat(0., 0., 10., 10.), new_flat(0., 0., 10., 11.));
}

#[test]
fn segment_eq_rev() {
    assert_eq!(new_flat(0., 0., 10., 10.), new_flat(10., 10., 0., 0.));
}

#[test]
fn segment_with_an_undefined_coordinate_equals_nothing() {
    let broken = new_flat(f64::NAN, 0., 10., 10.);
    assert_ne!(broken, broken);
    assert_ne!(broken, new_flat(10., 10., f64::NAN, 0.));
}

#[test]
fn segment_keeps_its_ends() {
    let segment = Segment::new(Vec2::new(1., 2.), Vec2::new(3., 4.));
    assert_eq!(segment.p0(), Vec2::new(1., 2.));
    assert_eq!(segment.p1(), Vec2::new(3., 4.));
    assert_eq!(segment.p0, Vec2::new(1., 2.));
    assert_eq!(segment.p1, Vec2::new(3., 4.));
}

#[test]
fn shape_segments_iter() {
    let shape = Shape {
        vertices: vec![Vec2::new(1., 2.), Vec2::new(3., 4.), Vec2::new(5., 6.)],
    };
    let expected = vec![
        new_flat(1., 2., 3., 4.),
        new_flat(3., 4., 5., 6.),
        new_flat(5., 6., 1., 2.),
    ];
    assert!(same_direction(&walk(&shape), &expected));
    assert!(same_direction(&shape.segments().to_vec(), &expected));
}

#[test]
fn shape_segments_iter_one() {
    let shape = Shape {
        vertices: vec![Vec2::new(1., 2.)],
    };
    let expected = vec![new_flat(1., 2., 1., 2.)];
    assert!(same_direction(&walk(&shape), &expected));
    assert!(same_direction(&shape.segments().to_vec(), &expected));
}

#[test]
fn shape_segments_iter_zero() {
    let shape: Shape<Vec2> = Shape { vertices: vec![] };
    assert!(walk(&shape).is_empty());
    assert!(shape.segments().to_vec().is_empty());
}

#[test]
fn shape_segments_can_be_walked_again() {
    let shape = Shape::new(vec![Vec2::new(1., 2.), Vec2::new(3., 4.)]);
    let first = walk(&shape);
    let second = walk(&shape);
    assert_eq!(first.len(), 2);
    assert!(same_direction(&first, &second));
}

#[test]
fn shape_segment_by_index() {
    let shape = Shape::new(vec![Vec2::new(1., 2.), Vec2::new(3., 4.), Vec2::new(5., 6.)]);
    let last = shape.segment(2);
    assert_eq!(last.p0, Vec2::new(5., 6.));
    assert_eq!(last.p1, Vec2::new(1., 2.));
}

#[test]
fn shape_neighbours_wrap_around() {
    let shape = Shape::new(vec![Vec2::new(1., 2.), Vec2::new(3., 4.), Vec2::new(5., 6.)]);
    assert_eq!(shape.prev_vertex(0), Vec2::new(5., 6.));
    assert_eq!(shape.prev_vertex(1), Vec2::new(1., 2.));
    assert_eq!(shape.next_vertex(2), Vec2::new(1., 2.));
    assert_eq!(shape.next_vertex(0), Vec2::new(3., 4.));
    let single = Shape::new(vec![Vec2::new(7., 8.)]);
    assert_eq!(single.prev_vertex(0), Vec2::new(7., 8.));
    assert_eq!(single.next_vertex(0), Vec2::new(7., 8.));
}

#[test]
fn shape_reverse_turns_the_order_around() {
    let mut shape = Shape::new(vec![1, 2, 3, 4]);
    shape.reverse();
    assert_eq!(shape.vertices, vec![4, 3, 2, 1]);
    let mut odd = Shape::new(vec![1, 2, 3]);
    odd.reverse();
    assert_eq!(odd.vertices, vec![3, 2, 1]);
    let mut empty: Shape<u8> = Shape::new_empty();
    empty.reverse();
    assert!(empty.vertices.is_empty());
}

#[test]
fn shape_is_empty_without_vertices() {
    assert!(Shape::<Vec2>::new_empty().is_empty());
    assert!(Shape::<Vec2>::new(vec![]).is_empty());
    assert!(!Shape::new(vec![Vec2::new(0., 0.)]).is_empty());
}

#[test]
fn winding_orders_differ() {
    assert_ne!(ShapeWindingOrder::Clockwise, ShapeWindingOrder::CounterClockwise);
}
