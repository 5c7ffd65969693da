//! The top-level menu state of the dashboard.

use vstd::prelude::*;

verus! {

/// One of the mutually exclusive top-level views, plus the two signals a
/// transition can produce: `Quit` ends the session and `NoChange` means
/// "stay on the current view".
#[derive(Copy, Clone, Debug, PartialEq, Eq, Structural)]
pub enum MenuItem {
    Home,
    Birds,
    NoChange,
    Quit,
}

impl MenuItem {
    /// Position of the view in the menu bar; every non-`Birds` entry
    /// highlights the leading `Home` tab.
    pub fn index(self) -> (i: usize)
        ensures
            i == self.index_spec(),
    {
        match self {
            MenuItem::Birds => 1,
            _ => 0,
        }
    }

    pub open spec fn index_spec(self) -> usize {
        match self {
            MenuItem::Birds => 1usize,
            _ => 0usize,
        }
    }

    /// A view is a real view when it is not one of the two transition
    /// signals.
    pub open spec fn is_view(self) -> bool {
        self is Home || self is Birds || self is Quit
    }
}

} // verus!
