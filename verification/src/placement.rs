//! Putting a window where it belongs.
//!
//! A window does not always end up where it was told to go: the window
//! manager may adjust or ignore a request without reporting an error. So
//! the rectangle is set, read back and, while the two differ, set again, a
//! bounded number of times.

use vstd::prelude::*;
use crate::geometry::Rect;

verus! {

/// The number of times a rectangle is set at most.
pub const MAX_ATTEMPTS: u32 = 10;

/// How the attempts to place a window ended.
#[derive(Debug, Clone, Copy, PartialEq, Eq, Structural)]
pub struct Placement {
    /// How many times the rectangle was set and read back.
    pub attempts: u32,
    /// What the last reading gave.
    pub last: Rect,
}

impl Placement {
    /// The window is where `target` says. When it is not, the attempts were
    /// used up; that is reported as is and counts as no failure.
    pub open spec fn reached(self, target: Rect) -> bool {
        self.last == target
    }

    /// Tells whether the window is where `target` says.
    pub fn has_reached(&self, target: &Rect) -> (b: bool)
        ensures
            b == self.reached(*target),
    {
        self.last == *target
    }
}

/// After `attempts` attempts, the last of which read `read_back`, no further
/// attempt is made: the window is in place, or the attempts are used up.
pub open spec fn settles(target: Rect, read_back: Rect, attempts: int) -> bool {
    read_back == target || attempts >= MAX_ATTEMPTS
}

/// The readings of a complete series of attempts: at least one and at most
/// [`MAX_ATTEMPTS`], none but the last equal to `target`, and the last equal
/// to it unless the attempts were used up.
pub open spec fn is_run(target: Rect, read_backs: Seq<Rect>) -> bool {
    &&& 1 <= read_backs.len() <= MAX_ATTEMPTS
    &&& forall|i: int| 0 <= i < read_backs.len() - 1 ==> read_backs[i] != target
    &&& read_backs.len() < MAX_ATTEMPTS ==> read_backs.last() == target
}

/// Decides, after an attempt has read `read_back`, whether to stop.
pub fn is_settled(target: &Rect, read_back: &Rect, attempts: u32) -> (stop: bool)
    ensures
        stop == settles(*target, *read_back, attempts as int),
{
    *read_back == *target || attempts >= MAX_ATTEMPTS
}

/// Sets the rectangle of `window` to `target` with `setter` and reads it
/// back with `getter`, until the reading equals `target` or
/// [`MAX_ATTEMPTS`] attempts were made. An error of either call ends the
/// attempts at once and is handed on.
pub fn apply<H, E, S, G>(target: &Rect, window: &H, setter: S, getter: G) -> (r: Result<
    Placement,
    E,
>) where S: Fn(&H, &Rect) -> Result<(), E>, G: Fn(&H) -> Result<Rect, E>
    requires
        call_requires(setter, (window, target)),
        call_requires(getter, (window,)),
    ensures
        match r {
            Ok(placement) => {
                &&& 1 <= placement.attempts <= MAX_ATTEMPTS
                &&& placement.attempts < MAX_ATTEMPTS ==> placement.reached(*target)
                &&& call_ensures(setter, (window, target), Ok(()))
                &&& exists|read_backs: Seq<Rect>|
                    {
                        &&& is_run(*target, read_backs)
                        &&& read_backs.len() == placement.attempts
                        &&& read_backs.last() == placement.last
                        &&& forall|i: int|
                            0 <= i < read_backs.len() ==> call_ensures(
                                getter,
                                (window,),
                                Ok(#[trigger] read_backs[i]),
                            )
                    }
            },
            Err(e) => {
                ||| call_ensures(setter, (window, target), Err(e))
                ||| call_ensures(getter, (window,), Err(e))
            },
        },
{
    let mut attempts: u32 = 0;
    let ghost mut read_backs: Seq<Rect> = Seq::empty();
    loop
        invariant
            call_requires(setter, (window, target)),
            call_requires(getter, (window,)),
            attempts < MAX_ATTEMPTS,
            read_backs.len() == attempts,
            forall|i: int| 0 <= i < read_backs.len() ==> read_backs[i] != *target,
            forall|i: int|
                0 <= i < read_backs.len() ==> call_ensures(
                    getter,
                    (window,),
                    Ok(#[trigger] read_backs[i]),
                ),
        decreases MAX_ATTEMPTS - attempts,
    {
        let set = setter(window, target);
        if let Err(e) = set {
            return Err(e);
        }
        assert(set == Ok::<(), E>(())) by {
            assert(set->Ok_0 =~= ());
        }
        let read_back = match getter(window) {
            Ok(rect) => rect,
            Err(e) => {
                return Err(e);
            },
        };
        attempts = attempts + 1;
        proof {
            read_backs = read_backs.push(read_back);
        }
        if is_settled(target, &read_back, attempts) {
            assert(is_run(*target, read_backs));
            return Ok(Placement { attempts, last: read_back });
        }
    }
}

/// A series of attempts ends with the first reading that equals the target,
/// and with the last attempt allowed if no reading does.
pub proof fn lemma_run_ends_at_first_match(target: Rect, read_backs: Seq<Rect>, k: int)
    requires
        is_run(target, read_backs),
        0 <= k < read_backs.len(),
    ensures
        read_backs[k] == target ==> k == read_backs.len() - 1,
        read_backs.last() != target ==> read_backs.len() == MAX_ATTEMPTS,
        settles(target, read_backs[k], k + 1) <==> k == read_backs.len() - 1,
{
}

} // verus!
