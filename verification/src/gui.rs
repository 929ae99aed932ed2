//! The state behind the window of the program.

use vstd::prelude::*;

verus! {

/// What the window shows: the text in its one field.
pub struct AppState {
    name: String,
}

impl View for AppState {
    type V = Seq<char>;

    closed spec fn view(&self) -> Seq<char> {
        self.name@
    }
}

impl AppState {
    /// The state of a window whose field holds `name`.
    pub fn new(name: &str) -> (state: Self)
        ensures
            state@ == name@,
    {
        Self { name: name.to_owned() }
    }

    /// The text in the field.
    pub fn name(&self) -> (name: &String)
        ensures
            name@ == self@,
    {
        &self.name
    }
}

} // verus!
