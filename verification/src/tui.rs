//! The terminal.
use vstd::prelude::*;
use crate::fetch::Key;

pub mod progress;

verus! {

/// A key asks the program to exit: `q`, or `c` with control.
pub fn poll_exit_event(key: Key, control: bool) -> (r: bool)
    ensures
        r == (key == Key::Char('q') || (key == Key::Char('c') && control)),
{
    match key {
        Key::Char('q') => true,
        Key::Char('c') => control,
        _ => false,
    }
}

/// The keys that leave: `q`, and `c` with control.
pub proof fn law_exit_keys(key: Key, control: bool, r: bool)
    requires
        call_ensures(poll_exit_event, (key, control), r),
    ensures
        key == Key::Char('q') ==> r,
        key == Key::Char('c') ==> r == control,
        key != Key::Char('q') && key != Key::Char('c') ==> !r,
{
}

} // verus!
