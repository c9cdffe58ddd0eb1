//! Screen capture decisions: whether capture is permitted, and which display is
//! captured.

use crate::permission::Authorization;
use vstd::prelude::*;

verus! {

/// Why a screen capture cannot be opened.
#[derive(Debug, Clone, Copy, PartialEq, Eq, Structural)]
pub enum ScreenError {
    /// Screen Recording access has not been granted.
    AccessNotGranted,
    /// There is no display at this index.
    DisplayOutOfRange { index: usize, available: usize },
    /// The main display is not among the shareable ones.
    NoMainDisplay { available: usize },
}

/// Whether this process may capture the screen, given whether CoreGraphics reports
/// access.
///
/// CoreGraphics reports only whether access is granted, so a process that has never
/// asked cannot be told apart from one the user declined; both are
/// [`Authorization::NotDetermined`].
pub fn authorization(granted: bool) -> (res: Authorization)
    ensures
        res == if granted {
            Authorization::Authorized
        } else {
            Authorization::NotDetermined
        },
{
    if granted {
        Authorization::Authorized
    } else {
        Authorization::NotDetermined
    }
}

/// What the user answered when asked for Screen Recording access.
pub fn access_answer(granted: bool) -> (res: Authorization)
    ensures
        res == if granted {
            Authorization::Authorized
        } else {
            Authorization::Denied
        },
{
    if granted {
        Authorization::Authorized
    } else {
        Authorization::Denied
    }
}

/// Whether a screen capture may be opened.
pub fn check_access(status: Authorization) -> (res: Result<(), ScreenError>)
    ensures
        res == if status == Authorization::Authorized {
            Ok::<(), ScreenError>(())
        } else {
            Err(ScreenError::AccessNotGranted)
        },
{
    if status != Authorization::Authorized {
        return Err(ScreenError::AccessNotGranted);
    }
    Ok(())
}

/// Which of the shareable displays, whose ids are `displays`, to capture: the one at
/// `display_index`, or the main display, whose id is `main_id`.
pub fn choose_display(display_index: Option<usize>, displays: &[u32], main_id: u32) -> (res: Result<
    usize,
    ScreenError,
>)
    ensures
        match display_index {
            Some(index) => res == if index < displays@.len() {
                Ok::<usize, ScreenError>(index)
            } else {
                Err(
                    ScreenError::DisplayOutOfRange { index, available: displays@.len() as usize },
                )
            },
            None => match res {
                Ok(i) => {
                    &&& i < displays@.len()
                    &&& displays@[i as int] == main_id
                    &&& forall|k: int| 0 <= k < i ==> displays@[k] != main_id
                },
                Err(e) => {
                    &&& e == (ScreenError::NoMainDisplay { available: displays@.len() as usize })
                    &&& !displays@.contains(main_id)
                },
            },
        },
{
    let available: usize = displays.len();
    if let Some(index) = display_index {
        return if index < available {
            Ok(index)
        } else {
            Err(ScreenError::DisplayOutOfRange { index, available })
        };
    }
    let mut i: usize = 0;
    while i < available
        invariant
            display_index is None,
            available == displays@.len(),
            i <= available,
            forall|k: int| 0 <= k < i ==> displays@[k] != main_id,
        decreases available - i,
    {
        if displays[i] == main_id {
            return Ok(i);
        }
        i = i + 1;
    }
    Err(ScreenError::NoMainDisplay { available })
}

} // verus!
