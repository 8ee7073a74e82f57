use move_window::double::{divide, offset, scale, to_pixel, Double};
use move_window::command::{MoveParameters, ScreenSelector};
use move_window::geometry::{Rect, Screen};
use move_window::grid::{compute, compute_among};
use move_window::screens::ResolveError;

fn screen(visible_frame: Rect) -> Screen {
    Screen { index: 0, visible_frame, frame: visible_frame }
}

fn params(x: (i32, i32, i32), y: (i32, i32, i32)) -> MoveParameters {
    MoveParameters {
        screen: ScreenSelector::Index(0),
        x_ratio: x.0,
        x_start: x.1,
        x_end: x.2,
        y_ratio: y.0,
        y_start: y.1,
        y_end: y.2,
    }
}

/// The same rectangle in the machine's own double precision.
fn in_doubles(frame: &Rect, p: &MoveParameters) -> Rect {
    let width = f64::from(frame.width) / f64::from(p.x_ratio);
    let height = f64::from(frame.height) / f64::from(p.y_ratio);
    let columns = i64::from(p.x_end) - i64::from(p.x_start) + 1;
    let rows = i64::from(p.y_end) - i64::from(p.y_start) + 1;
    Rect {
        x: (f64::from(frame.x) + width * f64::from(p.x_start)).round() as i32,
        y: (f64::from(frame.y) + height * f64::from(p.y_start)).round() as i32,
        width: (width * columns as f64).round() as i32,
        height: (height * rows as f64).round() as i32,
    }
}

/// The value of a double of the library as a double of the machine.
fn value(d: Double) -> f64 {
    match d {
        Double::Nan => f64::NAN,
        Double::Infinite { negative: true } => f64::NEG_INFINITY,
        Double::Infinite { negative: false } => f64::INFINITY,
        Double::Finite { negative, mantissa, shift } => {
            let size = mantissa as f64 * 2f64.powi(shift as i32 - 83);
            if negative {
                -size
            } else {
                size
            }
        }
    }
}

fn same(a: f64, b: f64) -> bool {
    (a.is_nan() && b.is_nan()) || a == b
}

struct Numbers(u64);

impl Numbers {
    fn next(&mut self) -> u64 {
        self.0 = self.0.wrapping_mul(6364136223846793005).wrapping_add(1442695040888963407);
        self.0 >> 16
    }

    /// A coordinate: small, of the size of a screen, at the edge of the
    /// range or anything at all.
    fn coordinate(&mut self) -> i32 {
        let r = self.next();
        let pick = self.next();
        match r % 10 {
            0 | 1 => (pick % 21) as i32 - 10,
            2 | 3 | 4 => (pick % 10001) as i32 - 5000,
            5 => [i32::MIN, i32::MAX, i32::MIN + 1, i32::MAX - 1, 0, 1, -1][(pick % 7) as usize],
            _ => pick as u32 as i32,
        }
    }
}

#[test]
fn whole_screen() {
    let frame = Rect { x: 0, y: 25, width: 1920, height: 1055 };
    assert_eq!(compute(&screen(frame), &params((1, 0, 0), (1, 0, 0))), frame);
    let odd = Rect { x: -1921, y: i32::MIN, width: i32::MAX, height: -7 };
    assert_eq!(compute(&screen(odd), &params((1, 0, 0), (1, 0, 0))), odd);
}

#[test]
fn halves_and_quarters() {
    let frame = Rect { x: 0, y: 25, width: 1920, height: 1054 };
    let s = screen(frame);
    assert_eq!(
        compute(&s, &params((2, 0, 0), (1, 0, 0))),
        Rect { x: 0, y: 25, width: 960, height: 1054 }
    );
    assert_eq!(
        compute(&s, &params((2, 1, 1), (1, 0, 0))),
        Rect { x: 960, y: 25, width: 960, height: 1054 }
    );
    assert_eq!(
        compute(&s, &params((2, 0, 0), (2, 0, 0))),
        Rect { x: 0, y: 25, width: 960, height: 527 }
    );
    assert_eq!(
        compute(&s, &params((2, 1, 1), (2, 1, 1))),
        Rect { x: 960, y: 552, width: 960, height: 527 }
    );
}

#[test]
fn thirds_are_rounded_one_by_one() {
    // 1000 / 3 = 333.33..: the cells begin at 0, 333 and 667, and each is
    // 333 wide, so the last one ends a pixel early.
    let s = screen(Rect { x: 0, y: 0, width: 1000, height: 100 });
    let widths: Vec<(i32, i32)> = (0..3)
        .map(|c| {
            let r = compute(&s, &params((3, c, c), (1, 0, 0)));
            (r.x, r.width)
        })
        .collect();
    assert_eq!(widths, vec![(0, 333), (333, 333), (667, 333)]);
    // Two cells together are 666.67 wide, which rounds to 667.
    assert_eq!(compute(&s, &params((3, 0, 1), (1, 0, 0))).width, 667);
    assert_eq!(compute(&s, &params((3, 1, 2), (1, 0, 0))).x, 333);
}

#[test]
fn a_tie_goes_away_from_zero() {
    // A cell of 2.5 pixels.
    let s = screen(Rect { x: 0, y: 0, width: 5, height: -5 });
    let r = compute(&s, &params((2, 1, 1), (2, 1, 1)));
    assert_eq!(r, Rect { x: 3, y: -3, width: 3, height: -3 });
    let s = screen(Rect { x: -10, y: 10, width: 5, height: -5 });
    let r = compute(&s, &params((2, 1, 3), (2, 1, 3)));
    // -10 + 2.5 = -7.5, 10 - 2.5 = 7.5; three cells are 7.5 wide.
    assert_eq!(r, Rect { x: -8, y: 8, width: 8, height: -8 });
}

#[test]
fn a_range_that_ends_before_it_starts() {
    let s = screen(Rect { x: 0, y: 0, width: 900, height: 900 });
    let r = compute(&s, &params((3, 2, 0), (3, 1, 1)));
    assert_eq!(r, Rect { x: 600, y: 300, width: -300, height: 300 });
    assert!(!r.proper());
    assert!(compute(&s, &params((3, 0, 2), (3, 1, 1))).proper());
}

#[test]
fn a_grid_of_no_columns() {
    let s = screen(Rect { x: 7, y: 7, width: 900, height: -900 });
    // 900 / 0 is infinite; times 0 it is no number, else it stays infinite.
    assert_eq!(
        compute(&s, &params((0, 0, 0), (0, 0, 0))),
        Rect { x: 0, y: 0, width: i32::MAX, height: i32::MIN }
    );
    assert_eq!(
        compute(&s, &params((0, 1, 1), (0, 1, 1))),
        Rect { x: i32::MAX, y: i32::MIN, width: i32::MAX, height: i32::MIN }
    );
    assert_eq!(
        compute(&s, &params((0, -1, -2), (0, -1, -2))),
        Rect { x: i32::MIN, y: i32::MAX, width: 0, height: 0 }
    );
    // 0 / 0 is no number, whatever is done with it.
    let empty = screen(Rect { x: 7, y: 7, width: 0, height: 0 });
    assert_eq!(
        compute(&empty, &params((0, 3, 5), (0, 0, 0))),
        Rect { x: 0, y: 0, width: 0, height: 0 }
    );
}

#[test]
fn every_digit_on_common_screens() {
    let frames = [
        Rect { x: 0, y: 25, width: 1920, height: 1055 },
        Rect { x: 1920, y: 80, width: 2560, height: 1415 },
        Rect { x: -1366, y: 0, width: 1366, height: 768 },
        Rect { x: 0, y: 38, width: 1512, height: 944 },
        Rect { x: 3, y: -5, width: 1001, height: 997 },
    ];
    for frame in frames {
        for ratio in 0..10 {
            for start in 0..10 {
                for end in 0..10 {
                    let p = params((ratio, start, end), (end, ratio, start));
                    assert_eq!(compute(&screen(frame), &p), in_doubles(&frame, &p));
                }
            }
        }
    }
}

#[test]
fn agrees_with_the_machine_on_any_numbers() {
    let mut numbers = Numbers(2024);
    for _ in 0..150_000 {
        let frame = Rect {
            x: numbers.coordinate(),
            y: numbers.coordinate(),
            width: numbers.coordinate(),
            height: numbers.coordinate(),
        };
        let p = params(
            (numbers.coordinate(), numbers.coordinate(), numbers.coordinate()),
            (numbers.coordinate(), numbers.coordinate(), numbers.coordinate()),
        );
        assert_eq!(compute(&screen(frame), &p), in_doubles(&frame, &p), "{:?} {:?}", frame, p);
    }
}

#[test]
fn each_operation_agrees_with_the_machine() {
    let mut numbers = Numbers(7);
    for _ in 0..150_000 {
        let (a, b, c, d) = (
            numbers.coordinate(),
            numbers.coordinate(),
            numbers.coordinate(),
            numbers.coordinate(),
        );
        let q = divide(a, b);
        let expected = f64::from(a) / f64::from(b);
        assert!(same(value(q), expected), "{} / {}", a, b);
        let p = scale(q, i64::from(c));
        let expected = expected * f64::from(c);
        assert!(same(value(p), expected), "{} / {} * {}", a, b, c);
        let s = offset(d, p);
        let expected = f64::from(d) + expected;
        assert!(same(value(s), expected), "{} + {} / {} * {}", d, a, b, c);
        assert_eq!(to_pixel(s), expected.round() as i32);
        assert_eq!(to_pixel(q), (f64::from(a) / f64::from(b)).round() as i32);
    }
}

#[test]
fn factors_of_up_to_53_bits() {
    let mut numbers = Numbers(53);
    for round in 0..50_000u64 {
        let (a, b, d) = (numbers.coordinate(), numbers.coordinate(), numbers.coordinate());
        let size = match round % 4 {
            0 => 1i64 << 53,
            1 => (1i64 << 53) - 1,
            2 => (numbers.next() as i64) & ((1i64 << 53) - 1),
            _ => (numbers.next() as i64) & ((1i64 << 40) - 1),
        };
        let factor = if numbers.next() % 2 == 0 { size } else { -size };
        let product = scale(divide(a, b), factor);
        let expected = f64::from(a) / f64::from(b) * factor as f64;
        assert!(same(value(product), expected), "{} / {} * {}", a, b, factor);
        let sum = offset(d, product);
        let expected = f64::from(d) + expected;
        assert!(same(value(sum), expected), "{} + {} / {} * {}", d, a, b, factor);
        assert_eq!(to_pixel(sum), expected.round() as i32);
    }
}

#[test]
fn a_span_may_count_more_cells_than_a_coordinate_holds() {
    let q = divide(1, 3);
    for cells in [1i64 << 32, -(1i64 << 32), (1i64 << 32) - 1, 1 - (1i64 << 32), 3, 0] {
        let expected = (1.0f64 / 3.0) * cells as f64;
        assert!(same(value(scale(q, cells)), expected));
        assert_eq!(to_pixel(scale(q, cells)), expected.round() as i32);
    }
    let s = screen(Rect { x: 0, y: 0, width: 1, height: 1 });
    let r = compute(&s, &params((3, i32::MIN, i32::MAX), (3, i32::MAX, i32::MIN)));
    assert_eq!(r.width, (1.0f64 / 3.0 * 4294967296.0).round() as i32);
    assert_eq!(r.height, (1.0f64 / 3.0 * -4294967294.0).round() as i32);
}

#[test]
fn rounding_to_53_bits_shows() {
    // 2^31 - 1 over 3 has no exact double, and neither has its product
    // with a large number.
    let q = divide(i32::MAX, 3);
    assert_eq!(value(q), 2147483647.0 / 3.0);
    let p = scale(q, 2147483645);
    assert_eq!(value(p), 2147483647.0 / 3.0 * 2147483645.0);
    match p {
        Double::Finite { mantissa, .. } => assert!(mantissa >= 1 << 52 && mantissa <= 1 << 53),
        _ => panic!("finite"),
    }
    // 1/6 of 3 is one half in doubles, and rounds up.
    let s = screen(Rect { x: 0, y: 0, width: 1, height: 7 });
    let r = compute(&s, &params((6, 3, 5), (6, 3, 5)));
    assert_eq!(r, Rect { x: 1, y: 4, width: 1, height: 4 });
}

#[test]
fn computing_twice_gives_the_same() {
    let mut numbers = Numbers(99);
    for _ in 0..1000 {
        let frame = Rect {
            x: numbers.coordinate(),
            y: numbers.coordinate(),
            width: numbers.coordinate(),
            height: numbers.coordinate(),
        };
        let p = params(
            (numbers.coordinate(), numbers.coordinate(), numbers.coordinate()),
            (numbers.coordinate(), numbers.coordinate(), numbers.coordinate()),
        );
        let s = screen(frame);
        assert_eq!(compute(&s, &p), compute(&s, &p));
    }
}

#[test]
fn on_the_screen_that_the_command_names() {
    let left = Screen {
        index: 1,
        frame: Rect { x: -1280, y: 0, width: 1280, height: 1024 },
        visible_frame: Rect { x: -1280, y: 56, width: 1280, height: 1000 },
    };
    let main = Screen {
        index: 0,
        frame: Rect { x: 0, y: 0, width: 1920, height: 1080 },
        visible_frame: Rect { x: 0, y: 25, width: 1920, height: 1055 },
    };
    let screens = [main, left];
    let right_half = MoveParameters::from_command("l21").unwrap();
    assert_eq!(
        compute_among(&right_half, &screens),
        Ok(Rect { x: -640, y: 56, width: 640, height: 1000 })
    );
    let top_left = MoveParameters::from_command("02020").unwrap();
    assert_eq!(
        compute_among(&top_left, &screens),
        Ok(Rect { x: 0, y: 25, width: 960, height: 528 })
    );
    let two_of_three = MoveParameters::from_command("m30-1").unwrap();
    assert_eq!(
        compute_among(&two_of_three, &screens),
        Ok(Rect { x: 0, y: 25, width: 1280, height: 1055 })
    );
    for (command, error) in [
        ("2", ResolveError::UnknownIndex),
        ("x21", ResolveError::UnknownDirection),
    ] {
        let p = MoveParameters::from_command(command).unwrap();
        assert_eq!(compute_among(&p, &screens), Err(error));
    }
    let p = MoveParameters::from_command("r").unwrap();
    assert_eq!(compute_among(&p, &[]), Err(ResolveError::NoScreens));
}

#[test]
fn neighbours_meet_within_a_pixel() {
    let mut numbers = Numbers(11);
    for round in 0..20_000u64 {
        let width = (numbers.next() % (1 << 31)) as i32;
        let height = (numbers.next() % 3000) as i32;
        // Anywhere, as long as the frame ends within the range of a coordinate.
        let room = (1u64 << 32) - width as u64;
        let x = (i64::from(i32::MIN) + (numbers.next() % room) as i64) as i32;
        let columns = if round % 2 == 0 {
            1 + (numbers.next() % 9) as i32
        } else {
            1 + (numbers.next() % (i32::MAX as u64)) as i32
        };
        let rows = 1 + (numbers.next() % 9) as i32;
        let s = screen(Rect { x, y: 25, width, height });
        let start = (numbers.next() % columns as u64) as i32;
        let end = start + (numbers.next() % (columns - start) as u64) as i32;
        let row = (numbers.next() % rows as u64) as i32;
        let here = compute(&s, &params((columns, start, end), (rows, 0, row)));
        let there = compute(&s, &params((columns, end + 1, end + 1), (rows, row + 1, row + 1)));
        assert!((i64::from(here.x) + i64::from(here.width) - i64::from(there.x)).abs() <= 1);
        assert!((here.y + here.height - there.y).abs() <= 1);
    }
}

#[test]
fn the_grid_covers_the_frame() {
    let mut numbers = Numbers(12);
    for _ in 0..20_000 {
        let width = (numbers.next() % (1 << 31)) as i32;
        let height = (numbers.next() % 3000) as i32;
        // Anywhere, as long as the frame ends within the range of a coordinate.
        let room = (1u64 << 32) - width as u64;
        let x = (i64::from(i32::MIN) + (numbers.next() % room) as i64) as i32;
        let columns = 1 + (numbers.next() % (i32::MAX as u64)) as i32;
        let rows = 1 + (numbers.next() % 9) as i32;
        let frame = Rect { x, y: -40, width, height };
        let s = screen(frame);
        assert_eq!(compute(&s, &params((columns, 0, columns - 1), (rows, 0, rows - 1))), frame);
        let behind = compute(&s, &params((columns, columns, columns), (rows, rows, rows)));
        assert_eq!((behind.x, behind.y), (x + width, -40 + height));
    }
}
