//! A reduced menu type that only distinguishes the two browsable views.

use vstd::prelude::*;

verus! {

/// The two views that can actually be rendered; unlike
/// [`crate::menu::MenuItem`] this carries no transition signals.
#[derive(Copy, Clone, Debug, PartialEq, Eq, Structural)]
pub enum MenuItem {
    Home,
    Birds,
}

impl MenuItem {
    /// Position of the view in the menu bar.
    pub fn index(self) -> (i: usize)
        ensures
            self is Home ==> i == 0,
            self is Birds ==> i == 1,
    {
        match self {
            MenuItem::Home => 0,
            MenuItem::Birds => 1,
        }
    }
}

} // verus!
