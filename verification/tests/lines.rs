use geometrical_shapes::{Color, Drawable, Line, Point, Recorder};

fn outline_of<D: Drawable>(shape: &D) -> Vec<(i32, i32)> {
    let mut surface = Recorder::new();
    shape
        .draw(&mut surface, Color::white(), &Vec::new())
        .expect("a shape of straight edges is always drawn");
    surface.marks.iter().map(|m| (m.x, m.y)).collect()
}

fn segment(x1: i32, y1: i32, x2: i32, y2: i32) -> Vec<(i32, i32)> {
    outline_of(&Line::new(Point::new(x1, y1), Point::new(x2, y2)))
}

#[test]
fn horizontal_line_is_walked_from_start_to_end() {
    assert_eq!(
        segment(0, 0, 4, 0),
        vec![(0, 0), (1, 0), (2, 0), (3, 0), (4, 0)]
    );
}

#[test]
fn horizontal_line_is_walked_backwards_too() {
    assert_eq!(
        segment(4, 0, 0, 0),
        vec![(4, 0), (3, 0), (2, 0), (1, 0), (0, 0)]
    );
}

#[test]
fn line_between_equal_points_is_one_pixel() {
    assert_eq!(segment(7, -3, 7, -3), vec![(7, -3)]);
    assert_eq!(segment(0, 0, 0, 0), vec![(0, 0)]);
    assert_eq!(
        segment(i32::MIN, i32::MAX, i32::MIN, i32::MAX),
        vec![(i32::MIN, i32::MAX)]
    );
}

#[test]
fn line_starts_and_ends_on_its_points() {
    let cases = [
        (0, 0, 9, 4),
        (9, 4, 0, 0),
        (-5, 7, 3, -11),
        (3, -11, -5, 7),
        (100, 100, 101, 350),
        (i32::MAX - 3, i32::MIN, i32::MAX, i32::MIN + 2),
    ];
    for (x1, y1, x2, y2) in cases {
        let pixels = segment(x1, y1, x2, y2);
        assert_eq!(pixels.first(), Some(&(x1, y1)));
        assert_eq!(pixels.last(), Some(&(x2, y2)));
    }
}

#[test]
fn line_has_one_pixel_more_than_its_larger_extent() {
    assert_eq!(segment(0, 0, 9, 4).len(), 10);
    assert_eq!(segment(0, 0, 4, 9).len(), 10);
    assert_eq!(segment(-3, -3, 3, 3).len(), 7);
    assert_eq!(segment(2, 5, 2, -5).len(), 11);
}

#[test]
fn vertical_line_keeps_its_column() {
    let pixels = segment(3, -2, 3, 6);
    assert_eq!(pixels.len(), 9);
    for (i, pixel) in pixels.iter().enumerate() {
        assert_eq!(*pixel, (3, -2 + i as i32));
    }
}

#[test]
fn horizontal_line_keeps_its_row() {
    let pixels = segment(5, -4, -5, -4);
    assert_eq!(pixels.len(), 11);
    for (i, pixel) in pixels.iter().enumerate() {
        assert_eq!(*pixel, (5 - i as i32, -4));
    }
}

#[test]
fn diagonal_moves_one_pixel_on_both_axes() {
    assert_eq!(segment(0, 0, 3, 3), vec![(0, 0), (1, 1), (2, 2), (3, 3)]);
    assert_eq!(segment(0, 0, -3, 3), vec![(0, 0), (-1, 1), (-2, 2), (-3, 3)]);
    assert_eq!(segment(1, 1, -1, -1), vec![(1, 1), (0, 0), (-1, -1)]);
}

#[test]
fn shallow_line_rounds_to_the_nearest_row() {
    // rows 0, 0.4, 0.8, 1.2, 1.6, 2
    assert_eq!(
        segment(0, 0, 5, 2),
        vec![(0, 0), (1, 0), (2, 1), (3, 1), (4, 2), (5, 2)]
    );
    // columns 10, 9.75, 9.5, 9.25, 9
    assert_eq!(
        segment(10, 0, 9, 4),
        vec![(10, 0), (10, 1), (10, 2), (9, 3), (9, 4)]
    );
}

#[test]
fn halfway_position_rounds_away_from_zero() {
    // row 0.5 goes to 1
    assert_eq!(segment(0, 0, 2, 1), vec![(0, 0), (1, 1), (2, 1)]);
    assert_eq!(segment(0, 1, 2, 0), vec![(0, 1), (1, 1), (2, 0)]);
    // row -0.5 goes to -1
    assert_eq!(segment(0, 0, 2, -1), vec![(0, 0), (1, -1), (2, -1)]);
    assert_eq!(segment(0, -1, 2, 0), vec![(0, -1), (1, -1), (2, 0)]);
    // row 2.5 goes to 3, row -2.5 to -3
    assert_eq!(segment(0, 2, 2, 3), vec![(0, 2), (1, 3), (2, 3)]);
    assert_eq!(segment(0, -2, 2, -3), vec![(0, -2), (1, -3), (2, -3)]);
}

#[test]
fn line_stays_in_the_box_of_its_ends() {
    let pixels = segment(-20, 13, 31, -8);
    assert_eq!(pixels.len(), 52);
    for (i, (x, y)) in pixels.iter().enumerate() {
        assert_eq!(*x, -20 + i as i32);
        assert!(-8 <= *y && *y <= 13);
    }
    for pair in pixels.windows(2) {
        assert!(pair[1].1 <= pair[0].1);
        assert!(pair[0].1 - pair[1].1 <= 1);
    }
}

#[test]
fn line_has_no_gap() {
    let cases = [
        (0, 0, 17, 5),
        (0, 0, 5, 17),
        (-9, 4, 8, -3),
        (3, 3, -40, 2),
        (-1, -1, 1, 30),
        (6, -2, -6, 2),
    ];
    for (x1, y1, x2, y2) in cases {
        let pixels = segment(x1, y1, x2, y2);
        for pair in pixels.windows(2) {
            assert!((pair[1].0 - pair[0].0).abs() <= 1);
            assert!((pair[1].1 - pair[0].1).abs() <= 1);
            assert_ne!(pair[0], pair[1]);
        }
    }
}

#[test]
fn long_line_ends_exactly() {
    let pixels = segment(-1_000_000_000, 123, -999_900_000, -77);
    assert_eq!(pixels.len(), 100_001);
    assert_eq!(pixels[0], (-1_000_000_000, 123));
    assert_eq!(pixels[50_000], (-999_950_000, 23));
    assert_eq!(pixels[100_000], (-999_900_000, -77));
}

#[test]
fn line_at_the_edge_of_the_plane() {
    assert_eq!(
        segment(i32::MAX - 2, i32::MIN, i32::MAX, i32::MIN + 1),
        vec![
            (i32::MAX - 2, i32::MIN),
            (i32::MAX - 1, i32::MIN),
            (i32::MAX, i32::MIN + 1)
        ]
    );
}

#[test]
fn line_is_drawn_in_the_colour_given() {
    let mut surface = Recorder::new();
    let red = Color::rgba(200, 10, 20, 128);
    let done = Line::new(Point::new(1, 1), Point::new(1, 3)).draw(&mut surface, red, &Vec::new());
    assert_eq!(done, Ok(()));
    assert_eq!(surface.marks.len(), 3);
    for mark in &surface.marks {
        assert_eq!(mark.color, red);
    }
}

#[test]
fn drawing_appends_to_what_the_surface_holds() {
    let mut surface = Recorder::new();
    let white = Color::white();
    let sweep = Vec::new();
    Point::new(9, 9).draw(&mut surface, white, &sweep).unwrap();
    Line::new(Point::new(0, 0), Point::new(1, 0))
        .draw(&mut surface, white, &sweep)
        .unwrap();
    let seen: Vec<(i32, i32)> = surface.marks.iter().map(|m| (m.x, m.y)).collect();
    assert_eq!(seen, vec![(9, 9), (0, 0), (1, 0)]);
}

#[test]
fn random_line_lies_within_the_size_given() {
    for _ in 0..500 {
        let line = Line::random(7, 3);
        for p in [line.p1, line.p2] {
            assert!(0 <= p.x && p.x < 7);
            assert!(0 <= p.y && p.y < 3);
        }
    }
    let line = Line::random(1, 1);
    assert_eq!(line, Line::new(Point::new(0, 0), Point::new(0, 0)));
}

#[test]
fn random_point_lies_within_the_size_given() {
    let mut seen = [false; 4];
    for _ in 0..500 {
        let p = Point::random(4, 2);
        assert!(0 <= p.x && p.x < 4);
        assert!(0 <= p.y && p.y < 2);
        seen[p.x as usize] = true;
    }
    assert_eq!(seen, [true; 4]);
    assert_eq!(Point::random(1, 1), Point::new(0, 0));
}

#[test]
fn point_sets_its_own_pixel() {
    assert_eq!(outline_of(&Point::new(-4, 12)), vec![(-4, 12)]);
    let p = Point::new(3, 5);
    assert_eq!((p.x, p.y), (3, 5));
}
