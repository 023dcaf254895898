use std::collections::HashMap;

use geometrical_shapes::{
    Canvas, Circle, Color, Direction, Displayable, Drawable, Line, Mark, Point, Recorder,
    Rectangle, Shape, ShapeError, Triangle, UNIT,
};

fn marks_of<D: Drawable>(shape: &D, sweep: &Vec<Direction>) -> Vec<(i32, i32)> {
    let mut surface = Recorder::new();
    shape
        .draw(&mut surface, Color::white(), sweep)
        .expect("the shape can be drawn");
    surface.marks.iter().map(|m| (m.x, m.y)).collect()
}

fn direction(cos: i64, sin: i64) -> Direction {
    Direction::new(cos, sin).expect("a unit vector")
}

fn toward(angle: f64) -> Direction {
    let unit = UNIT as f64;
    direction((angle.cos() * unit).round() as i64, (angle.sin() * unit).round() as i64)
}

fn full_turn() -> Vec<Direction> {
    let mut sweep = Vec::new();
    let mut angle: f64 = 0.0;
    while angle < 2.0 * std::f64::consts::PI {
        sweep.push(toward(angle));
        angle += 0.001;
    }
    sweep
}

fn what_is_seen(marks: &[Mark]) -> HashMap<(i32, i32), Color> {
    let mut seen = HashMap::new();
    for mark in marks {
        seen.insert((mark.x, mark.y), mark.color);
    }
    seen
}

fn pixel(image: &raster::Image, x: i32, y: i32) -> (u8, u8, u8, u8) {
    let c = image.get_pixel(x, y).expect("a pixel of the image");
    (c.r, c.g, c.b, c.a)
}

const WHITE: (u8, u8, u8, u8) = (255, 255, 255, 255);
const BLACK: (u8, u8, u8, u8) = (0, 0, 0, 255);

#[test]
fn rectangle_is_a_closed_loop_of_four_edges() {
    let rectangle = Rectangle::new(&Point::new(0, 0), &Point::new(2, 2));
    assert_eq!(
        marks_of(&rectangle, &Vec::new()),
        vec![
            (0, 0), (0, 1), (0, 2),
            (0, 2), (1, 2), (2, 2),
            (2, 2), (2, 1), (2, 0),
            (2, 0), (1, 0), (0, 0),
        ]
    );
}

#[test]
fn rectangle_touches_the_eight_pixels_of_its_border() {
    let rectangle = Rectangle::new(&Point::new(0, 0), &Point::new(2, 2));
    let marks = marks_of(&rectangle, &Vec::new());
    let mut times: HashMap<(i32, i32), usize> = HashMap::new();
    for mark in &marks {
        *times.entry(*mark).or_insert(0) += 1;
    }
    assert_eq!(times.len(), 8);
    assert!(!times.contains_key(&(1, 1)));
    for corner in [(0, 0), (0, 2), (2, 2), (2, 0)] {
        assert_eq!(times[&corner], 2);
    }
    for middle in [(0, 1), (1, 2), (2, 1), (1, 0)] {
        assert_eq!(times[&middle], 1);
    }
}

#[test]
fn rectangle_fills_the_box_of_its_corners() {
    let corners = [
        (Point::new(150, 150), Point::new(50, 50)),
        (Point::new(-3, 8), Point::new(4, -2)),
        (Point::new(4, -2), Point::new(-3, 8)),
        (Point::new(5, 5), Point::new(5, 9)),
        (Point::new(1, 1), Point::new(1, 1)),
    ];
    for (p1, p2) in corners {
        let marks = marks_of(&Rectangle::new(&p1, &p2), &Vec::new());
        let xs: Vec<i32> = marks.iter().map(|m| m.0).collect();
        let ys: Vec<i32> = marks.iter().map(|m| m.1).collect();
        assert_eq!(*xs.iter().min().unwrap(), p1.x.min(p2.x));
        assert_eq!(*xs.iter().max().unwrap(), p1.x.max(p2.x));
        assert_eq!(*ys.iter().min().unwrap(), p1.y.min(p2.y));
        assert_eq!(*ys.iter().max().unwrap(), p1.y.max(p2.y));
        for corner in [(p1.x, p1.y), (p1.x, p2.y), (p2.x, p2.y), (p2.x, p1.y)] {
            assert!(marks.contains(&corner));
        }
    }
}

#[test]
fn rectangle_keeps_its_corners() {
    let rectangle = Rectangle::new(&Point::new(150, 150), &Point::new(50, 50));
    assert_eq!(rectangle.p1, Point::new(150, 150));
    assert_eq!(rectangle.p2, Point::new(50, 50));
}

#[test]
fn triangle_is_its_three_edges_in_order() {
    let triangle = Triangle::new(&Point::new(0, 0), &Point::new(2, 0), &Point::new(0, 2));
    assert_eq!(
        marks_of(&triangle, &Vec::new()),
        vec![
            (0, 0), (1, 0), (2, 0),
            (0, 0), (0, 1), (0, 2),
            (2, 0), (1, 1), (0, 2),
        ]
    );
}

#[test]
fn each_edge_of_a_triangle_joins_two_corners() {
    let p1 = Point::new(500, 500);
    let p2 = Point::new(250, 700);
    let p3 = Point::new(700, 800);
    let marks = marks_of(&Triangle::new(&p1, &p2, &p3), &Vec::new());
    let first = 251;
    let second = 301;
    let third = 451;
    assert_eq!(marks.len(), first + second + third);
    assert_eq!(marks[0], (500, 500));
    assert_eq!(marks[first - 1], (250, 700));
    assert_eq!(marks[first], (500, 500));
    assert_eq!(marks[first + second - 1], (700, 800));
    assert_eq!(marks[first + second], (250, 700));
    assert_eq!(marks[first + second + third - 1], (700, 800));
}

#[test]
fn triangle_on_one_line_is_drawn_over_itself() {
    let triangle = Triangle::new(&Point::new(0, 0), &Point::new(2, 0), &Point::new(4, 0));
    assert_eq!(
        marks_of(&triangle, &Vec::new()),
        vec![
            (0, 0), (1, 0), (2, 0),
            (0, 0), (1, 0), (2, 0), (3, 0), (4, 0),
            (2, 0), (3, 0), (4, 0),
        ]
    );
    let triangle = Triangle::new(&Point::new(1, 1), &Point::new(1, 1), &Point::new(1, 1));
    assert_eq!(marks_of(&triangle, &Vec::new()), vec![(1, 1), (1, 1), (1, 1)]);
}

#[test]
fn circle_of_radius_zero_sets_its_centre_only() {
    let circle = Circle::new(Point::new(0, 0), 0);
    for sweep in [full_turn(), vec![toward(1.0)], vec![toward(0.3), toward(4.0), toward(6.0)]] {
        let marks = marks_of(&circle, &sweep);
        assert_eq!(marks.len(), sweep.len());
        assert!(marks.iter().all(|m| *m == (0, 0)));
    }
    let circle = Circle::new(Point::new(-7, 12), 0);
    assert!(marks_of(&circle, &full_turn()).iter().all(|m| *m == (-7, 12)));
}

#[test]
fn circle_without_directions_sets_nothing() {
    let circle = Circle::new(Point::new(3, 3), 10);
    assert_eq!(marks_of(&circle, &Vec::new()), vec![]);
}

#[test]
fn circle_is_met_along_the_axes() {
    let circle = Circle::new(Point::new(10, -20), 7);
    let sweep = vec![
        direction(UNIT, 0),
        direction(0, UNIT),
        direction(-UNIT, 0),
        direction(0, -UNIT),
    ];
    assert_eq!(
        marks_of(&circle, &sweep),
        vec![(17, -20), (10, -13), (3, -20), (10, -27)]
    );
}

#[test]
fn circle_point_is_centre_plus_radius_times_direction() {
    // the direction with cosine 0.6 and sine 0.8
    let d = direction(659_706_976_666, 879_609_302_221);
    assert_eq!(marks_of(&Circle::new(Point::new(0, 0), 5), &vec![d]), vec![(3, 4)]);
    assert_eq!(marks_of(&Circle::new(Point::new(0, 0), 10), &vec![d]), vec![(6, 8)]);
    assert_eq!(marks_of(&Circle::new(Point::new(100, 200), 1000), &vec![d]), vec![(700, 1000)]);
    // 0.6 and 0.8 round to 1, 1.8 and 2.4 to 2
    assert_eq!(marks_of(&Circle::new(Point::new(0, 0), 1), &vec![d]), vec![(1, 1)]);
    assert_eq!(marks_of(&Circle::new(Point::new(0, 0), 3), &vec![d]), vec![(2, 2)]);
    assert_eq!(marks_of(&Circle::new(Point::new(-9, 9), 3), &vec![d]), vec![(-7, 11)]);
}

#[test]
fn circle_rounds_a_halfway_position_away_from_zero() {
    // cosine one half
    let d = direction(UNIT / 2, ((0.75f64).sqrt() * UNIT as f64).round() as i64);
    // columns 0.5 and 1.5 go to 1 and 2, columns -0.5 and -1.5 to -1 and -2
    assert_eq!(marks_of(&Circle::new(Point::new(0, 0), 1), &vec![d])[0].0, 1);
    assert_eq!(marks_of(&Circle::new(Point::new(1, 0), 1), &vec![d])[0].0, 2);
    assert_eq!(marks_of(&Circle::new(Point::new(-1, 0), 1), &vec![d])[0].0, -1);
    assert_eq!(marks_of(&Circle::new(Point::new(-2, 0), 1), &vec![d])[0].0, -2);
}

#[test]
fn every_pixel_of_a_circle_is_within_one_pixel_of_it() {
    let sweep = full_turn();
    assert_eq!(sweep.len(), 6284);
    let circles = [(0, 0, 1), (0, 0, 2), (40, -30, 50), (500, 500, 999), (-3, 4, 123_456)];
    for (cx, cy, radius) in circles {
        let marks = marks_of(&Circle::new(Point::new(cx, cy), radius), &sweep);
        assert_eq!(marks.len(), sweep.len());
        for (x, y) in marks {
            let dx = (x - cx) as f64;
            let dy = (y - cy) as f64;
            let off = ((dx * dx + dy * dy).sqrt() - radius as f64).abs();
            assert!(off <= 1.0, "({x}, {y}) is {off} off the circle");
        }
    }
}

#[test]
fn circle_starts_on_the_right_and_turns_to_positive_rows() {
    let marks = marks_of(&Circle::new(Point::new(0, 0), 100), &full_turn());
    assert_eq!(marks[0], (100, 0));
    assert_eq!(marks[1571], (0, 100));
    assert_eq!(marks[3142], (-100, 0));
    assert_eq!(marks[4712], (0, -100));
}

#[test]
fn circle_of_the_largest_radius_is_within_one_pixel_too() {
    let radius = i32::MAX;
    let marks = marks_of(
        &Circle::new(Point::new(0, 0), radius),
        &vec![toward(0.7), toward(2.0), toward(4.0), toward(5.5)],
    );
    for (x, y) in marks {
        let square = (x as i128) * (x as i128) + (y as i128) * (y as i128);
        let r = radius as i128;
        assert!(square <= (r + 1) * (r + 1));
        assert!((r - 1) * (r - 1) <= square);
    }
}

#[test]
fn circle_beyond_the_plane_stops_at_its_edge() {
    let sweep = vec![direction(UNIT, 0), direction(0, -UNIT)];
    let circle = Circle::new(Point::new(i32::MAX - 5, i32::MIN + 5), 10);
    assert_eq!(
        marks_of(&circle, &sweep),
        vec![(i32::MAX, i32::MIN + 5), (i32::MAX - 5, i32::MIN)]
    );
}

#[test]
fn circle_with_negative_radius_is_refused() {
    let sweep = full_turn();
    for radius in [-1, -50, i32::MIN] {
        let mut surface = Recorder::new();
        let circle = Circle::new(Point::new(5, 5), radius);
        let done = circle.draw(&mut surface, Color::white(), &sweep);
        assert_eq!(done, Err(ShapeError::NegativeRadius));
        assert!(surface.marks.is_empty());
    }
    assert_eq!(
        ShapeError::NegativeRadius.message(),
        "the radius of a circle cannot be negative"
    );
}

#[test]
fn circle_is_drawn_in_one_colour() {
    let mut surface = Recorder::new();
    let color = Color::opaque(1, 2, 3);
    Circle::new(Point::new(5, 5), 30)
        .draw(&mut surface, color, &full_turn())
        .unwrap();
    assert_eq!(surface.marks.len(), 6284);
    assert!(surface.marks.iter().all(|m| m.color == color));
}

#[test]
fn circle_keeps_centre_and_radius() {
    let circle = Circle::new(Point::new(3, 4), -5);
    assert_eq!(circle.center, Point::new(3, 4));
    assert_eq!(circle.radius, -5);
    assert_eq!(Circle::within(Point::new(3, 4), 9, 2).radius, 2);
    assert_eq!(Circle::within(Point::new(3, 4), 2, 9).radius, 2);
    assert_eq!(Circle::within(Point::new(3, 4), 6, 6), Circle::new(Point::new(3, 4), 6));
}

#[test]
fn random_circle_lies_within_the_size_given() {
    for _ in 0..500 {
        let circle = Circle::random(9, 4);
        assert!(0 <= circle.center.x && circle.center.x < 9);
        assert!(0 <= circle.center.y && circle.center.y < 4);
        assert!(0 <= circle.radius && circle.radius < 4);
    }
    assert_eq!(Circle::random(1, 1), Circle::new(Point::new(0, 0), 0));
}

#[test]
fn random_colour_is_opaque() {
    let mut reds = std::collections::HashSet::new();
    for _ in 0..200 {
        let color = <Circle as Drawable>::color();
        assert_eq!(color.a, 255);
        reds.insert(color.r);
    }
    assert!(reds.len() > 1);
}

#[test]
fn colours_hold_their_channels() {
    assert_eq!(Color::white(), Color { r: 255, g: 255, b: 255, a: 255 });
    assert_eq!(Color::rgba(1, 2, 3, 4), Color { r: 1, g: 2, b: 3, a: 4 });
    assert_eq!(Color::opaque(1, 2, 3), Color { r: 1, g: 2, b: 3, a: 255 });
}

#[test]
fn direction_must_be_a_unit_vector() {
    assert!(Direction::new(UNIT, 0).is_some());
    assert!(Direction::new(0, -UNIT).is_some());
    assert!(Direction::new(659_706_976_666, 879_609_302_221).is_some());
    assert!(Direction::new(0, 0).is_none());
    assert!(Direction::new(UNIT, UNIT).is_none());
    assert!(Direction::new(UNIT / 2, UNIT / 2).is_none());
    assert!(Direction::new(i64::MAX, i64::MIN).is_none());
    assert!(Direction::new(i64::MIN, 0).is_none());
    // the square of the length may be off by twice the unit
    assert!(Direction::new(UNIT, 1_482_910).is_some());
    assert!(Direction::new(UNIT, 1_482_911).is_none());
    assert!(Direction::new(UNIT - 1, 0).is_some());
    assert!(Direction::new(UNIT - 2, 0).is_none());
    assert!(Direction::new(UNIT + 1, 0).is_none());
    for angle in [0.0, 0.001, 1.0, 2.5, 3.14159, 4.0, 6.283] {
        let _ = toward(angle);
    }
}

#[test]
fn shapes_of_all_kinds_are_drawn_alike() {
    let sweep = vec![direction(UNIT, 0), direction(0, UNIT)];
    let shapes = vec![
        Shape::Point(Point::new(1, 2)),
        Shape::Line(Line::new(Point::new(0, 0), Point::new(2, 0))),
        Shape::Rectangle(Rectangle::new(&Point::new(5, 5), &Point::new(6, 6))),
        Shape::Triangle(Triangle::new(&Point::new(0, 0), &Point::new(1, 0), &Point::new(0, 1))),
        Shape::Circle(Circle::new(Point::new(10, 10), 3)),
    ];
    let mut surface = Recorder::new();
    for shape in &shapes {
        assert_eq!(shape.draw(&mut surface, Color::white(), &sweep), Ok(()));
    }
    let seen: Vec<(i32, i32)> = surface.marks.iter().map(|m| (m.x, m.y)).collect();
    assert_eq!(
        seen,
        vec![
            (1, 2),
            (0, 0), (1, 0), (2, 0),
            (5, 5), (5, 6), (5, 6), (6, 6), (6, 6), (6, 5), (6, 5), (5, 5),
            (0, 0), (1, 0), (0, 0), (0, 1), (1, 0), (0, 1),
            (13, 10), (10, 13),
        ]
    );
    let refused = Shape::Circle(Circle::new(Point::new(0, 0), -2));
    assert_eq!(
        refused.draw(&mut surface, Color::white(), &sweep),
        Err(ShapeError::NegativeRadius)
    );
    assert_eq!(surface.marks.len(), 20);
}

#[test]
fn drawing_twice_shows_what_drawing_once_shows() {
    let sweep = full_turn();
    let color = Color::opaque(9, 8, 7);
    let mut once = Recorder::new();
    let mut twice = Recorder::new();
    Line::new(Point::new(0, 0), Point::new(30, 4))
        .draw(&mut once, Color::white(), &sweep)
        .unwrap();
    Line::new(Point::new(0, 0), Point::new(30, 4))
        .draw(&mut twice, Color::white(), &sweep)
        .unwrap();
    let circle = Circle::new(Point::new(10, 2), 12);
    circle.draw(&mut once, color, &sweep).unwrap();
    circle.draw(&mut twice, color, &sweep).unwrap();
    circle.draw(&mut twice, color, &sweep).unwrap();
    assert_eq!(twice.marks.len(), once.marks.len() + sweep.len());
    assert_eq!(what_is_seen(&twice.marks), what_is_seen(&once.marks));
}

#[test]
fn canvas_shows_the_rectangle_drawn_on_it() {
    let mut canvas = Canvas::blank(3, 3).expect("a small canvas");
    Rectangle::new(&Point::new(0, 0), &Point::new(2, 2))
        .draw(&mut canvas, Color::white(), &Vec::new())
        .unwrap();
    let image = canvas.into_image();
    assert_eq!((image.width, image.height), (3, 3));
    for y in 0..3 {
        for x in 0..3 {
            let expected = if (x, y) == (1, 1) { BLACK } else { WHITE };
            assert_eq!(pixel(&image, x, y), expected);
        }
    }
}

#[test]
fn canvas_starts_out_black_and_opaque() {
    let image = Canvas::blank(4, 2).expect("a small canvas").into_image();
    assert_eq!((image.width, image.height), (4, 2));
    assert_eq!(image.bytes.len(), 32);
    for y in 0..2 {
        for x in 0..4 {
            assert_eq!(pixel(&image, x, y), BLACK);
        }
    }
    let image = Canvas::blank(0, 5).expect("an empty canvas").into_image();
    assert_eq!((image.width, image.height, image.bytes.len()), (0, 5, 0));
}

#[test]
fn canvas_sets_the_pixel_written() {
    let mut canvas = Canvas::blank(4, 3).expect("a small canvas");
    canvas.display(3, 1, Color::rgba(10, 20, 30, 40));
    canvas.display(0, 2, Color::rgba(1, 2, 3, 4));
    canvas.display(3, 1, Color::rgba(50, 60, 70, 80));
    let image = canvas.into_image();
    for y in 0..3 {
        for x in 0..4 {
            let expected = match (x, y) {
                (3, 1) => (50, 60, 70, 80),
                (0, 2) => (1, 2, 3, 4),
                _ => BLACK,
            };
            assert_eq!(pixel(&image, x, y), expected);
        }
    }
    assert_eq!(&image.bytes[28..32], &[50, 60, 70, 80]);
    assert_eq!(&image.bytes[32..36], &[1, 2, 3, 4]);
}

#[test]
fn canvas_drops_what_falls_outside_of_it() {
    let mut canvas = Canvas::blank(3, 2).expect("a small canvas");
    let untouched = Canvas::blank(3, 2).expect("a small canvas").into_image().bytes;
    for (x, y) in [
        (-1, 0), (0, -1), (3, 0), (0, 2), (3, 2), (-1, -1),
        (i32::MIN, 0), (i32::MAX, 1), (1, i32::MIN), (2, i32::MAX),
    ] {
        canvas.display(x, y, Color::white());
    }
    assert_eq!(canvas.into_image().bytes, untouched);

    let mut canvas = Canvas::blank(3, 2).expect("a small canvas");
    Line::new(Point::new(-2, 1), Point::new(5, 1))
        .draw(&mut canvas, Color::white(), &Vec::new())
        .unwrap();
    let image = canvas.into_image();
    for x in 0..3 {
        assert_eq!(pixel(&image, x, 0), BLACK);
        assert_eq!(pixel(&image, x, 1), WHITE);
    }
}

#[test]
fn canvas_made_from_an_image_keeps_what_it_showed() {
    let mut image = raster::Image::blank(3, 2);
    for (i, byte) in image.bytes.iter_mut().enumerate() {
        *byte = i as u8;
    }
    let mut canvas = match Canvas::from_image(image.clone()) {
        Ok(canvas) => canvas,
        Err(_) => panic!("an image with four bytes a pixel is taken"),
    };
    Line::new(Point::new(-1, 1), Point::new(1, 1))
        .draw(&mut canvas, Color::rgba(200, 201, 202, 203), &Vec::new())
        .unwrap();
    let after = canvas.into_image();
    assert_eq!((after.width, after.height), (3, 2));
    let mut expected = image.bytes.clone();
    expected[12..20].copy_from_slice(&[200, 201, 202, 203, 200, 201, 202, 203]);
    assert_eq!(after.bytes, expected);
    assert_eq!(pixel(&after, 2, 1), (20, 21, 22, 23));
}

#[test]
fn image_that_does_not_hold_its_pixels_is_handed_back() {
    let short = raster::Image { width: 2, height: 2, bytes: vec![7; 15] };
    let long = raster::Image { width: 2, height: 2, bytes: vec![7; 17] };
    let narrow = raster::Image { width: -2, height: 2, bytes: vec![] };
    let low = raster::Image { width: 2, height: -2, bytes: vec![] };
    let huge = raster::Image { width: 1 << 20, height: 1 << 20, bytes: vec![] };
    for image in [short, long, narrow, low, huge] {
        match Canvas::from_image(image.clone()) {
            Ok(_) => panic!("the image cannot be worked on"),
            Err(back) => {
                assert_eq!((back.width, back.height), (image.width, image.height));
                assert_eq!(back.bytes, image.bytes);
            }
        }
    }
    let exact = raster::Image { width: 2, height: 2, bytes: vec![7; 16] };
    assert!(Canvas::from_image(exact).is_ok());
    let empty = raster::Image { width: 0, height: 9, bytes: vec![] };
    assert!(Canvas::from_image(empty).is_ok());
}

#[test]
fn canvas_of_impossible_size_is_not_made() {
    assert!(Canvas::blank(-1, 5).is_none());
    assert!(Canvas::blank(5, -1).is_none());
    assert!(Canvas::blank(i32::MIN, i32::MIN).is_none());
    assert!(Canvas::blank(i32::MAX, i32::MAX).is_none());
    assert!(Canvas::blank(65_536, 8_192).is_none());
    assert!(Canvas::blank(16_384, 32_768).is_none());
    assert!(Canvas::blank(0, 0).is_some());
    assert!(Canvas::blank(0, 1000).is_some());
    assert!(Canvas::blank(1000, 1000).is_some());
}

#[test]
fn canvas_drawn_on_twice_is_as_drawn_on_once() {
    let sweep = full_turn();
    let color = Color::opaque(200, 100, 50);
    let shapes = [Circle::new(Point::new(20, 20), 15), Circle::new(Point::new(0, 40), 30)];
    let mut once = Canvas::blank(50, 50).expect("a small canvas");
    let mut twice = Canvas::blank(50, 50).expect("a small canvas");
    for shape in &shapes {
        shape.draw(&mut once, color, &sweep).unwrap();
        shape.draw(&mut twice, color, &sweep).unwrap();
        shape.draw(&mut twice, color, &sweep).unwrap();
    }
    let once = once.into_image();
    let twice = twice.into_image();
    assert_eq!(once.bytes, twice.bytes);
    assert_eq!(pixel(&once, 35, 20), (200, 100, 50, 255));
    assert_eq!(pixel(&once, 20, 20), BLACK);
}
