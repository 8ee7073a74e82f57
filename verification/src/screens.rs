//! Choosing the screen a selector names.

use vstd::prelude::*;
use crate::command::ScreenSelector;
use crate::geometry::Screen;

verus! {

/// What a direction letter asks for.
#[derive(Debug, Clone, Copy, PartialEq, Eq, Structural)]
pub enum Direction {
    /// The primary screen, the one numbered 0.
    Main,
    /// The screen whose frame starts furthest left.
    Left,
    /// The screen whose frame starts furthest right.
    Right,
    /// The screen whose frame starts highest.
    Top,
    /// The screen whose frame starts lowest.
    Bottom,
}

/// Why no screen could be chosen.
#[derive(Debug, Clone, Copy, PartialEq, Eq, Structural)]
pub enum ResolveError {
    /// No screen has the number asked for.
    UnknownIndex,
    /// The letter stands for no direction.
    UnknownDirection,
    /// A direction was asked for and there is no screen at all.
    NoScreens,
}

impl ResolveError {
    /// The error in words.
    pub open spec fn text(self) -> Seq<char> {
        match self {
            ResolveError::UnknownIndex => "Unknown screen index."@,
            ResolveError::UnknownDirection => "Unknown character for screen selection."@,
            ResolveError::NoScreens => "There are no screens."@,
        }
    }

    /// Says in words why no screen could be chosen.
    pub fn message(&self) -> (m: &'static str)
        ensures
            m@ == self.text(),
    {
        match self {
            ResolveError::UnknownIndex => "Unknown screen index.",
            ResolveError::UnknownDirection => "Unknown character for screen selection.",
            ResolveError::NoScreens => "There are no screens.",
        }
    }
}

/// The direction a letter stands for: `m` or `c` for the primary screen, `l`
/// and `r` for left and right, `t` or `u` for the top, `b` or `d` for the
/// bottom.
pub open spec fn direction_of(c: char) -> Option<Direction> {
    if c == 'm' || c == 'c' {
        Some(Direction::Main)
    } else if c == 'l' {
        Some(Direction::Left)
    } else if c == 'r' {
        Some(Direction::Right)
    } else if c == 't' || c == 'u' {
        Some(Direction::Top)
    } else if c == 'b' || c == 'd' {
        Some(Direction::Bottom)
    } else {
        None
    }
}

/// The number by which a selector tells screens apart: the screen's own
/// number, or the coordinate of its frame along the direction asked for.
pub open spec fn compared(screen: Screen, selector: ScreenSelector) -> int {
    match selector {
        ScreenSelector::Index(_) => screen.index as int,
        ScreenSelector::Char(c) => match direction_of(c) {
            Some(Direction::Left) | Some(Direction::Right) => screen.frame.x as int,
            Some(Direction::Top) | Some(Direction::Bottom) => screen.frame.y as int,
            _ => screen.index as int,
        },
    }
}

/// Position `i` holds the last screen numbered `index`.
pub open spec fn is_last_with_index(screens: Seq<Screen>, index: u64, i: int) -> bool {
    &&& 0 <= i < screens.len()
    &&& screens[i].index == index
    &&& forall|j: int| i < j < screens.len() ==> screens[j].index != index
}

/// Position `i` holds the first of the screens whose frame starts at the
/// least coordinate, horizontal or vertical.
pub open spec fn is_first_least(screens: Seq<Screen>, horizontal: bool, i: int) -> bool {
    &&& 0 <= i < screens.len()
    &&& forall|j: int|
        0 <= j < screens.len() ==> origin(screens[i], horizontal) <= origin(
            #[trigger] screens[j],
            horizontal,
        )
    &&& forall|j: int|
        0 <= j < i ==> origin(screens[i], horizontal) < origin(#[trigger] screens[j], horizontal)
}

/// Position `i` holds the last of the screens whose frame starts at the
/// greatest coordinate, horizontal or vertical.
pub open spec fn is_last_greatest(screens: Seq<Screen>, horizontal: bool, i: int) -> bool {
    &&& 0 <= i < screens.len()
    &&& forall|j: int|
        0 <= j < screens.len() ==> origin(#[trigger] screens[j], horizontal) <= origin(
            screens[i],
            horizontal,
        )
    &&& forall|j: int|
        i < j < screens.len() ==> origin(#[trigger] screens[j], horizontal) < origin(
            screens[i],
            horizontal,
        )
}

/// Where a screen's frame starts, horizontally or vertically.
pub open spec fn origin(screen: Screen, horizontal: bool) -> int {
    if horizontal {
        screen.frame.x as int
    } else {
        screen.frame.y as int
    }
}

/// Position `i` holds the screen that `selector` names. A number names the
/// last screen that carries it. Among screens that start at the same least
/// coordinate the first is named, among those at the same greatest
/// coordinate the last.
pub open spec fn selects(screens: Seq<Screen>, selector: ScreenSelector, i: int) -> bool {
    match selector {
        ScreenSelector::Index(n) => is_last_with_index(screens, n as u64, i),
        ScreenSelector::Char(c) => match direction_of(c) {
            Some(Direction::Main) => is_last_with_index(screens, 0, i),
            Some(Direction::Left) => is_first_least(screens, true, i),
            Some(Direction::Right) => is_last_greatest(screens, true, i),
            Some(Direction::Top) => is_last_greatest(screens, false, i),
            Some(Direction::Bottom) => is_first_least(screens, false, i),
            None => false,
        },
    }
}

/// No screen is numbered `index`.
pub open spec fn lacks_index(screens: Seq<Screen>, index: u64) -> bool {
    forall|j: int| 0 <= j < screens.len() ==> (#[trigger] screens[j]).index != index
}

/// The reason `selector` names none of `screens`, if it names none.
pub open spec fn refusal(screens: Seq<Screen>, selector: ScreenSelector) -> Option<ResolveError> {
    match selector {
        ScreenSelector::Index(n) => if lacks_index(screens, n as u64) {
            Some(ResolveError::UnknownIndex)
        } else {
            None
        },
        ScreenSelector::Char(c) => match direction_of(c) {
            None => Some(ResolveError::UnknownDirection),
            Some(Direction::Main) => if lacks_index(screens, 0) {
                Some(ResolveError::UnknownIndex)
            } else {
                None
            },
            Some(_) => if screens.len() == 0 {
                Some(ResolveError::NoScreens)
            } else {
                None
            },
        },
    }
}

/// Reads a direction letter.
pub fn direction(c: char) -> (d: Option<Direction>)
    ensures
        d == direction_of(c),
{
    if c == 'm' || c == 'c' {
        Some(Direction::Main)
    } else if c == 'l' {
        Some(Direction::Left)
    } else if c == 'r' {
        Some(Direction::Right)
    } else if c == 't' || c == 'u' {
        Some(Direction::Top)
    } else if c == 'b' || c == 'd' {
        Some(Direction::Bottom)
    } else {
        None
    }
}

/// Where a screen's frame starts, horizontally or vertically.
fn frame_origin(screen: &Screen, horizontal: bool) -> (o: i32)
    ensures
        o == origin(*screen, horizontal),
{
    if horizontal {
        screen.frame.x
    } else {
        screen.frame.y
    }
}

/// Finds the last screen numbered `index`.
pub fn find_index(screens: &[Screen], index: u64) -> (r: Option<usize>)
    ensures
        match r {
            Some(i) => is_last_with_index(screens@, index, i as int),
            None => lacks_index(screens@, index),
        },
{
    let mut found: Option<usize> = None;
    let mut k: usize = 0;
    while k < screens.len()
        invariant
            k <= screens.len(),
            match found {
                Some(i) => {
                    &&& i < k
                    &&& screens@[i as int].index == index
                    &&& forall|j: int| i < j < k ==> screens@[j].index != index
                },
                None => forall|j: int| 0 <= j < k ==> screens@[j].index != index,
            },
        decreases screens.len() - k,
    {
        if screens[k].index == index {
            found = Some(k);
        }
        k = k + 1;
    }
    found
}

/// Finds the first of the screens whose frame starts at the least
/// coordinate.
pub fn find_least(screens: &[Screen], horizontal: bool) -> (r: Option<usize>)
    ensures
        match r {
            Some(i) => is_first_least(screens@, horizontal, i as int),
            None => screens@.len() == 0,
        },
{
    if screens.len() == 0 {
        return None;
    }
    let mut best: usize = 0;
    let mut k: usize = 1;
    while k < screens.len()
        invariant
            best < k <= screens.len(),
            forall|j: int|
                0 <= j < k ==> origin(screens@[best as int], horizontal) <= origin(
                    #[trigger] screens@[j],
                    horizontal,
                ),
            forall|j: int|
                0 <= j < best ==> origin(screens@[best as int], horizontal) < origin(
                    #[trigger] screens@[j],
                    horizontal,
                ),
        decreases screens.len() - k,
    {
        if frame_origin(&screens[k], horizontal) < frame_origin(&screens[best], horizontal) {
            best = k;
        }
        k = k + 1;
    }
    Some(best)
}

/// Finds the last of the screens whose frame starts at the greatest
/// coordinate.
pub fn find_greatest(screens: &[Screen], horizontal: bool) -> (r: Option<usize>)
    ensures
        match r {
            Some(i) => is_last_greatest(screens@, horizontal, i as int),
            None => screens@.len() == 0,
        },
{
    if screens.len() == 0 {
        return None;
    }
    let mut best: usize = 0;
    let mut k: usize = 1;
    while k < screens.len()
        invariant
            best < k <= screens.len(),
            forall|j: int|
                0 <= j < k ==> origin(#[trigger] screens@[j], horizontal) <= origin(
                    screens@[best as int],
                    horizontal,
                ),
            forall|j: int|
                best < j < k ==> origin(#[trigger] screens@[j], horizontal) < origin(
                    screens@[best as int],
                    horizontal,
                ),
        decreases screens.len() - k,
    {
        if frame_origin(&screens[k], horizontal) >= frame_origin(&screens[best], horizontal) {
            best = k;
        }
        k = k + 1;
    }
    Some(best)
}

/// Finds the position of the screen that `selector` names.
pub fn locate(selector: ScreenSelector, screens: &[Screen]) -> (r: Result<usize, ResolveError>)
    ensures
        match r {
            Ok(i) => selects(screens@, selector, i as int) && refusal(screens@, selector) is None,
            Err(e) => refusal(screens@, selector) == Some(e),
        },
{
    match selector {
        ScreenSelector::Index(n) => match find_index(screens, n as u64) {
            Some(i) => Ok(i),
            None => Err(ResolveError::UnknownIndex),
        },
        ScreenSelector::Char(c) => match direction(c) {
            None => Err(ResolveError::UnknownDirection),
            Some(Direction::Main) => match find_index(screens, 0) {
                Some(i) => Ok(i),
                None => Err(ResolveError::UnknownIndex),
            },
            Some(Direction::Left) => match find_least(screens, true) {
                Some(i) => Ok(i),
                None => Err(ResolveError::NoScreens),
            },
            Some(Direction::Right) => match find_greatest(screens, true) {
                Some(i) => Ok(i),
                None => Err(ResolveError::NoScreens),
            },
            Some(Direction::Top) => match find_greatest(screens, false) {
                Some(i) => Ok(i),
                None => Err(ResolveError::NoScreens),
            },
            Some(Direction::Bottom) => match find_least(screens, false) {
                Some(i) => Ok(i),
                None => Err(ResolveError::NoScreens),
            },
        },
    }
}

/// Picks the screen that `selector` names.
pub fn resolve<'a>(selector: ScreenSelector, screens: &'a [Screen]) -> (r: Result<
    &'a Screen,
    ResolveError,
>)
    ensures
        match r {
            Ok(screen) => {
                &&& refusal(screens@, selector) is None
                &&& exists|i: int| selects(screens@, selector, i) && *screen == screens@[i]
            },
            Err(e) => refusal(screens@, selector) == Some(e),
        },
{
    match locate(selector, screens) {
        Ok(i) => Ok(&screens[i]),
        Err(e) => Err(e),
    }
}

/// A selector names at most one position.
pub proof fn lemma_selection_is_unique(
    screens: Seq<Screen>,
    selector: ScreenSelector,
    i: int,
    j: int,
)
    requires
        selects(screens, selector, i),
        selects(screens, selector, j),
    ensures
        i == j,
{
    let (si, sj) = (screens[i], screens[j]);
    assert(compared(si, selector) == compared(sj, selector));
}

/// The screen chosen does not depend on the order in which the screens are
/// listed, as long as no two of them agree in what the selector compares.
pub proof fn lemma_choice_ignores_order(
    a: Seq<Screen>,
    b: Seq<Screen>,
    selector: ScreenSelector,
    i: int,
    j: int,
)
    requires
        forall|s: Screen| a.contains(s) <==> b.contains(s),
        forall|k: int, l: int|
            0 <= k < l < a.len() ==> compared(a[k], selector) != compared(a[l], selector),
        selects(a, selector, i),
        selects(b, selector, j),
    ensures
        a[i] == b[j],
{
    assert(b.contains(b[j]));
    assert(a.contains(b[j]));
    let k = choose|k: int| 0 <= k < a.len() && a[k] == b[j];
    assert(a.contains(a[i]));
    assert(b.contains(a[i]));
    let l = choose|l: int| 0 <= l < b.len() && b[l] == a[i];
    assert(compared(a[k], selector) == compared(a[i], selector));
    if k < i {
        assert(compared(a[k], selector) != compared(a[i], selector));
    } else if i < k {
        assert(compared(a[i], selector) != compared(a[k], selector));
    }
}

} // verus!
