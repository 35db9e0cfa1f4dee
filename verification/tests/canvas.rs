use citra::color::{Color, Pixel};
use citra::image::{Image, ImageError};

fn px(r: u8, g: u8, b: u8) -> Pixel {
    Pixel { r, g, b }
}

fn at(img: &Image, x: usize, y: usize) -> Pixel {
    img.get(x, y).unwrap()
}

#[test]
fn new_buffer_is_black() {
    let img = Image::new(4, 3, 255);
    assert_eq!(img.width(), 4);
    assert_eq!(img.height(), 3);
    assert_eq!(img.depth(), 255);
    for y in 0..3 {
        for x in 0..4 {
            assert_eq!(at(&img, x, y), px(0, 0, 0));
        }
    }
}

#[test]
fn color_presets() {
    assert_eq!(Color::White.as_pixel(), px(255, 255, 255));
    assert_eq!(Color::Black.as_pixel(), px(0, 0, 0));
    assert_eq!(Color::Red.as_pixel(), px(255, 0, 0));
    assert_eq!(Color::Green.as_pixel(), px(0, 255, 0));
    assert_eq!(Color::Blue.as_pixel(), px(0, 0, 255));
}

#[test]
fn set_then_get_returns_written_color() {
    let mut img = Image::new(7, 5, 255);
    for y in 0..5 {
        for x in 0..7 {
            let c = px((x * 10) as u8, (y * 10) as u8, 7);
            img.draw_dot((x, y), c).unwrap();
            assert_eq!(at(&img, x, y), c);
        }
    }
}

#[test]
fn set_changes_exactly_one_pixel() {
    let mut img = Image::new(6, 6, 255);
    img.fill(Color::Blue);
    img.draw_dot((2, 3), px(9, 9, 9)).unwrap();
    for y in 0..6 {
        for x in 0..6 {
            if (x, y) == (2, 3) {
                assert_eq!(at(&img, x, y), px(9, 9, 9));
            } else {
                assert_eq!(at(&img, x, y), px(0, 0, 255));
            }
        }
    }
}

#[test]
fn out_of_bounds_set_and_get_fail_and_change_nothing() {
    let mut img = Image::new(4, 4, 255);
    img.fill(Color::Green);
    // A coordinate equal to the dimension is already invalid.
    let bad = [(4usize, 0usize), (0, 4), (4, 4), (100, 1), (1, 100)];
    for &(x, y) in bad.iter() {
        let r = img.draw_dot((x, y), px(1, 2, 3));
        match r {
            Err(ImageError::EditError(e)) => {
                assert_eq!(e.x, x);
                assert_eq!(e.y, y);
                assert_eq!(e.width, 4);
                assert_eq!(e.height, 4);
            }
            Ok(()) => panic!("draw_dot accepted an out-of-bounds point"),
        }
        assert!(matches!(img.get(x, y), Err(ImageError::EditError(_))));
    }
    for y in 0..4 {
        for x in 0..4 {
            assert_eq!(at(&img, x, y), px(0, 255, 0));
        }
    }
}

#[test]
fn fill_covers_every_pixel() {
    let mut img = Image::new(10, 10, 255);
    img.fill(Color::Red);
    let mut seen = 0;
    for y in 0..10 {
        for x in 0..10 {
            assert_eq!(at(&img, x, y), px(255, 0, 0));
            seen += 1;
        }
    }
    assert_eq!(seen, 100);
}

#[test]
fn line_is_symmetric_in_its_endpoints() {
    let cases = [
        ((1usize, 1usize), (8usize, 5usize)),
        ((8, 5), (1, 1)),
        ((0, 9), (9, 0)),
        ((3, 3), (3, 3)),
        ((2, 7), (2, 1)),
        ((7, 2), (1, 2)),
        ((0, 0), (9, 4)),
        ((4, 9), (5, 0)),
    ];
    for &(a, b) in cases.iter() {
        let mut one = Image::new(10, 10, 255);
        let mut two = Image::new(10, 10, 255);
        one.draw_line(a, b, px(200, 100, 50)).unwrap();
        two.draw_line(b, a, px(200, 100, 50)).unwrap();
        for y in 0..10 {
            for x in 0..10 {
                assert_eq!(at(&one, x, y), at(&two, x, y));
            }
        }
    }
}

#[test]
fn horizontal_line_sets_the_span_inclusive() {
    let mut img = Image::new(12, 12, 255);
    img.draw_line((2, 5), (8, 5), px(1, 2, 3)).unwrap();
    let mut painted = 0;
    for y in 0..12 {
        for x in 0..12 {
            if y == 5 && (2..=8).contains(&x) {
                assert_eq!(at(&img, x, y), px(1, 2, 3));
                painted += 1;
            } else {
                assert_eq!(at(&img, x, y), px(0, 0, 0));
            }
        }
    }
    assert_eq!(painted, 7);
}

#[test]
fn vertical_line_sets_the_span_inclusive() {
    let mut img = Image::new(12, 12, 255);
    img.draw_line((5, 2), (5, 8), px(4, 5, 6)).unwrap();
    for y in 0..12 {
        for x in 0..12 {
            if x == 5 && (2..=8).contains(&y) {
                assert_eq!(at(&img, x, y), px(4, 5, 6));
            } else {
                assert_eq!(at(&img, x, y), px(0, 0, 0));
            }
        }
    }
}

#[test]
fn perfect_diagonal_sets_exactly_the_diagonal() {
    let mut img = Image::new(5, 5, 255);
    img.draw_line((0, 0), (4, 4), px(7, 7, 7)).unwrap();
    for y in 0..5 {
        for x in 0..5 {
            if x == y {
                assert_eq!(at(&img, x, y), px(7, 7, 7));
            } else {
                assert_eq!(at(&img, x, y), px(0, 0, 0));
            }
        }
    }
}

#[test]
fn shallow_diagonal_steps_by_the_tie_break_rule() {
    // From (0,0) to (4,2): one pixel per column; twice the accumulated
    // error reaching the major delta steps the minor axis, so ties step.
    let mut img = Image::new(6, 6, 255);
    img.draw_line((0, 0), (4, 2), px(8, 8, 8)).unwrap();
    let expected = [(0usize, 0usize), (1, 1), (2, 1), (3, 2), (4, 2)];
    for y in 0..6 {
        for x in 0..6 {
            if expected.contains(&(x, y)) {
                assert_eq!(at(&img, x, y), px(8, 8, 8), "pixel ({}, {})", x, y);
            } else {
                assert_eq!(at(&img, x, y), px(0, 0, 0), "pixel ({}, {})", x, y);
            }
        }
    }
    // The same line drawn twice lands on the same pixels.
    let mut again = Image::new(6, 6, 255);
    again.draw_line((0, 0), (4, 2), px(8, 8, 8)).unwrap();
    for y in 0..6 {
        for x in 0..6 {
            assert_eq!(at(&img, x, y), at(&again, x, y));
        }
    }
}

#[test]
fn steep_and_reversed_octants_match_their_mirror() {
    // A steep line walks its major axis along y.
    let mut img = Image::new(6, 6, 255);
    img.draw_line((0, 0), (2, 4), px(3, 3, 3)).unwrap();
    let expected = [(0usize, 0usize), (1, 1), (1, 2), (2, 3), (2, 4)];
    for y in 0..6 {
        for x in 0..6 {
            let want = if expected.contains(&(x, y)) { px(3, 3, 3) } else { px(0, 0, 0) };
            assert_eq!(at(&img, x, y), want, "pixel ({}, {})", x, y);
        }
    }
}

#[test]
fn downward_diagonal_is_drawn() {
    let mut img = Image::new(10, 10, 255);
    img.draw_line((1, 8), (5, 4), px(6, 6, 6)).unwrap();
    for i in 0..5usize {
        assert_eq!(at(&img, 1 + i, 8 - i), px(6, 6, 6));
    }
}

#[test]
fn line_with_out_of_bounds_endpoint_writes_nothing() {
    let mut img = Image::new(8, 8, 255);
    img.fill(Color::White);
    let r = img.draw_line((2, 2), (8, 2), px(0, 0, 0));
    match r {
        Err(ImageError::EditError(e)) => {
            assert_eq!((e.x, e.y), (8, 2));
            assert_eq!((e.width, e.height), (8, 8));
        }
        Ok(()) => panic!("draw_line accepted an out-of-bounds endpoint"),
    }
    let r2 = img.draw_line((9, 9), (2, 2), px(0, 0, 0));
    assert!(matches!(r2, Err(ImageError::EditError(_))));
    for y in 0..8 {
        for x in 0..8 {
            assert_eq!(at(&img, x, y), px(255, 255, 255));
        }
    }
}

#[test]
fn draw_dot_color_and_draw_line_color_use_the_preset() {
    let mut img = Image::new(4, 4, 255);
    img.draw_dot_color((1, 1), Color::Red).unwrap();
    assert_eq!(at(&img, 1, 1), px(255, 0, 0));
    img.draw_line_color((0, 3), (3, 3), Color::Blue).unwrap();
    for x in 0..4 {
        assert_eq!(at(&img, x, 3), px(0, 0, 255));
    }
}

#[test]
fn one_by_one_buffer_works() {
    let mut img = Image::new(1, 1, 255);
    img.draw_line((0, 0), (0, 0), px(5, 6, 7)).unwrap();
    assert_eq!(at(&img, 0, 0), px(5, 6, 7));
    assert!(matches!(img.get(1, 0), Err(ImageError::EditError(_))));
    assert!(matches!(img.get(0, 1), Err(ImageError::EditError(_))));
}
