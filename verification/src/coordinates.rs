//! Bringing the screens into one coordinate space.
//!
//! Displays report their visible frame with the origin at the bottom left
//! and `y` growing upwards. Windows are placed with the origin at the top
//! left of the primary display and `y` growing downwards. The vertical
//! offset of every display but the primary one is therefore measured anew,
//! from the top of the primary display's frame.

use vstd::prelude::*;
use crate::geometry::{Rect, Screen};

verus! {

/// Distance from the top of a frame of height `primary_height` down to the
/// top of `visible`, where `visible.y` is measured upwards from the bottom.
pub open spec fn flipped_y(primary_height: int, visible: Rect) -> int {
    primary_height - visible.height - visible.y
}

/// `screen` as it lies in the coordinate space of `primary`: its visible
/// frame gets a new vertical offset and nothing else changes.
pub open spec fn in_space_of(primary: Screen, screen: Screen) -> Screen {
    Screen {
        visible_frame: Rect {
            y: flipped_y(primary.frame.height as int, screen.visible_frame) as i32,
            ..screen.visible_frame
        },
        ..screen
    }
}

/// The screens in the coordinate space of the first of them, which stays as
/// it is.
pub open spec fn normalized(screens: Seq<Screen>) -> Seq<Screen> {
    Seq::new(
        screens.len(),
        |i: int|
            if i == 0 {
                screens[0]
            } else {
                in_space_of(screens[0], screens[i])
            },
    )
}

/// Every new vertical offset is a number that a coordinate can hold.
pub open spec fn can_normalize(screens: Seq<Screen>) -> bool {
    forall|i: int|
        1 <= i < screens.len() ==> i32::MIN <= flipped_y(
            screens[0].frame.height as int,
            (#[trigger] screens[i]).visible_frame,
        ) <= i32::MAX
}

/// Tells whether [`normalize`] may be called on these screens.
pub fn normalizable(screens: &Vec<Screen>) -> (b: bool)
    ensures
        b == can_normalize(screens@),
{
    if screens.len() == 0 {
        return true;
    }
    let height: i64 = screens[0].frame.height as i64;
    let mut k: usize = 1;
    while k < screens.len()
        invariant
            1 <= k <= screens.len(),
            height == screens@[0].frame.height,
            forall|i: int|
                1 <= i < k ==> i32::MIN <= flipped_y(
                    height as int,
                    (#[trigger] screens@[i]).visible_frame,
                ) <= i32::MAX,
        decreases screens.len() - k,
    {
        let visible = screens[k].visible_frame;
        let y: i64 = height - visible.height as i64 - visible.y as i64;
        if y < i32::MIN as i64 || y > i32::MAX as i64 {
            return false;
        }
        k = k + 1;
    }
    true
}

/// Moves every screen but the first into the coordinate space of the first.
pub fn normalize(screens: &mut Vec<Screen>)
    requires
        can_normalize(old(screens)@),
    ensures
        final(screens)@ == normalized(old(screens)@),
{
    if screens.len() == 0 {
        return ;
    }
    let height: i64 = screens[0].frame.height as i64;
    let mut k: usize = 1;
    while k < screens.len()
        invariant
            1 <= k <= screens.len(),
            screens.len() == old(screens).len(),
            height == old(screens)@[0].frame.height,
            can_normalize(old(screens)@),
            forall|i: int| 0 <= i < k ==> screens@[i] == normalized(old(screens)@)[i],
            forall|i: int| k <= i < screens.len() ==> screens@[i] == old(screens)@[i],
        decreases screens.len() - k,
    {
        let mut screen = screens[k];
        let y: i64 = height - screen.visible_frame.height as i64 - screen.visible_frame.y as i64;
        screen.visible_frame.y = y as i32;
        screens.set(k, screen);
        k = k + 1;
    }
}

/// Normalizing touches nothing but the vertical offsets of the visible
/// frames, and leaves the first screen alone.
pub proof fn lemma_normalized_keeps_the_rest(screens: Seq<Screen>, i: int)
    requires
        0 <= i < screens.len(),
    ensures
        normalized(screens).len() == screens.len(),
        normalized(screens)[0] == screens[0],
        normalized(screens)[i].index == screens[i].index,
        normalized(screens)[i].frame == screens[i].frame,
        normalized(screens)[i].visible_frame.x == screens[i].visible_frame.x,
        normalized(screens)[i].visible_frame.width == screens[i].visible_frame.width,
        normalized(screens)[i].visible_frame.height == screens[i].visible_frame.height,
{
}

/// Measuring the offsets anew a second time gives the screens back as they
/// were: the flip is its own inverse.
pub proof fn lemma_normalized_twice_is_identity(screens: Seq<Screen>)
    requires
        can_normalize(screens),
    ensures
        can_normalize(normalized(screens)),
        normalized(normalized(screens)) == screens,
{
    let once = normalized(screens);
    assert forall|i: int| 1 <= i < once.len() implies i32::MIN <= flipped_y(
        once[0].frame.height as int,
        (#[trigger] once[i]).visible_frame,
    ) <= i32::MAX by {
        let _ = screens[i];
    }
    assert(normalized(once) =~= screens);
}

} // verus!
