use move_window::command::ScreenSelector;
use move_window::geometry::{Rect, Screen};
use move_window::screens::{
    direction, find_greatest, find_index, find_least, locate, resolve, Direction, ResolveError,
};

fn screen(index: u64, x: i32, y: i32) -> Screen {
    Screen {
        index,
        visible_frame: Rect { x, y: y + 25, width: 1920, height: 1055 },
        frame: Rect { x, y, width: 1920, height: 1080 },
    }
}

#[test]
fn leftmost_is_the_least_x() {
    let screens = vec![screen(0, 300, 0), screen(1, 0, 0), screen(2, 150, 0)];
    assert_eq!(resolve(ScreenSelector::Char('l'), &screens).map(|s| s.index), Ok(1));
    assert_eq!(locate(ScreenSelector::Char('l'), &screens), Ok(1));
}

#[test]
fn leftmost_does_not_depend_on_the_order() {
    let a = screen(0, 300, 0);
    let b = screen(1, 0, 0);
    let c = screen(2, 150, 0);
    let orders = [[a, b, c], [a, c, b], [b, a, c], [b, c, a], [c, a, b], [c, b, a]];
    for order in orders {
        assert_eq!(resolve(ScreenSelector::Char('l'), &order), Ok(&b));
        assert_eq!(resolve(ScreenSelector::Char('r'), &order), Ok(&a));
        assert_eq!(resolve(ScreenSelector::Char('m'), &order), Ok(&a));
        assert_eq!(resolve(ScreenSelector::Index(2), &order), Ok(&c));
    }
}

#[test]
fn directions() {
    let screens = vec![screen(0, 0, 0), screen(1, -1920, 200), screen(2, 1920, -300)];
    let pick = |c: char| resolve(ScreenSelector::Char(c), &screens).map(|s| s.index);
    assert_eq!(pick('m'), Ok(0));
    assert_eq!(pick('c'), Ok(0));
    assert_eq!(pick('l'), Ok(1));
    assert_eq!(pick('r'), Ok(2));
    assert_eq!(pick('t'), Ok(1));
    assert_eq!(pick('u'), Ok(1));
    assert_eq!(pick('b'), Ok(2));
    assert_eq!(pick('d'), Ok(2));
}

#[test]
fn letters_that_are_no_direction() {
    let screens = vec![screen(0, 0, 0)];
    for c in ['x', 'L', 'M', ' ', '-', 'e'] {
        assert_eq!(resolve(ScreenSelector::Char(c), &screens), Err(ResolveError::UnknownDirection));
    }
    assert_eq!(resolve(ScreenSelector::Char('x'), &[]), Err(ResolveError::UnknownDirection));
    assert_eq!(direction('x'), None);
    assert_eq!(direction('m'), Some(Direction::Main));
    assert_eq!(direction('c'), Some(Direction::Main));
    assert_eq!(direction('l'), Some(Direction::Left));
    assert_eq!(direction('r'), Some(Direction::Right));
    assert_eq!(direction('t'), Some(Direction::Top));
    assert_eq!(direction('u'), Some(Direction::Top));
    assert_eq!(direction('b'), Some(Direction::Bottom));
    assert_eq!(direction('d'), Some(Direction::Bottom));
}

#[test]
fn by_number() {
    let screens = vec![screen(0, 0, 0), screen(1, 1920, 0)];
    assert_eq!(resolve(ScreenSelector::Index(1), &screens), Ok(&screens[1]));
    assert_eq!(resolve(ScreenSelector::Index(0), &screens), Ok(&screens[0]));
    assert_eq!(resolve(ScreenSelector::Index(2), &screens), Err(ResolveError::UnknownIndex));
}

#[test]
fn no_screens() {
    assert_eq!(resolve(ScreenSelector::Index(0), &[]), Err(ResolveError::UnknownIndex));
    assert_eq!(resolve(ScreenSelector::Char('m'), &[]), Err(ResolveError::UnknownIndex));
    for c in ['l', 'r', 't', 'u', 'b', 'd'] {
        assert_eq!(resolve(ScreenSelector::Char(c), &[]), Err(ResolveError::NoScreens));
    }
}

#[test]
fn main_screen_must_be_listed() {
    let screens = vec![screen(1, 0, 0), screen(2, 10, 0)];
    assert_eq!(resolve(ScreenSelector::Char('m'), &screens), Err(ResolveError::UnknownIndex));
}

#[test]
fn ties() {
    // The first of equal minima, the last of equal maxima, the last of
    // equal numbers.
    let screens = vec![screen(4, 0, 7), screen(4, 0, 7), screen(4, 0, 7)];
    assert_eq!(locate(ScreenSelector::Char('l'), &screens), Ok(0));
    assert_eq!(locate(ScreenSelector::Char('b'), &screens), Ok(0));
    assert_eq!(locate(ScreenSelector::Char('r'), &screens), Ok(2));
    assert_eq!(locate(ScreenSelector::Char('t'), &screens), Ok(2));
    assert_eq!(locate(ScreenSelector::Index(4), &screens), Ok(2));
    assert_eq!(find_least(&screens, true), Some(0));
    assert_eq!(find_greatest(&screens, false), Some(2));
    assert_eq!(find_index(&screens, 4), Some(2));
    assert_eq!(find_index(&screens, 5), None);
    assert_eq!(find_least(&[], true), None);
    assert_eq!(find_greatest(&[], true), None);
}

#[test]
fn extremes_of_the_coordinate_range() {
    let screens = vec![screen(0, i32::MAX, i32::MIN), screen(1, i32::MIN, i32::MAX)];
    assert_eq!(locate(ScreenSelector::Char('l'), &screens), Ok(1));
    assert_eq!(locate(ScreenSelector::Char('r'), &screens), Ok(0));
    assert_eq!(locate(ScreenSelector::Char('t'), &screens), Ok(1));
    assert_eq!(locate(ScreenSelector::Char('b'), &screens), Ok(0));
}

#[test]
fn resolve_errors_in_words() {
    assert_eq!(ResolveError::UnknownIndex.message(), "Unknown screen index.");
    assert_eq!(
        ResolveError::UnknownDirection.message(),
        "Unknown character for screen selection."
    );
    assert_eq!(ResolveError::NoScreens.message(), "There are no screens.");
}
