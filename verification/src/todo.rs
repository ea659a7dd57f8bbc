//! The todo record: an id, a title, and a completion flag.

use vstd::prelude::*;

verus! {

/// A single todo item. Ids are assigned by the store; the title is chosen by
/// the client at creation and never changes; `completed` starts false and is
/// flipped only by the toggle operation.
pub struct Todo {
    pub id: u64,
    pub title: String,
    pub completed: bool,
}

/// The mathematical value of a [`Todo`]: the title is a sequence of characters.
pub struct TodoView {
    pub id: u64,
    pub title: Seq<char>,
    pub completed: bool,
}

impl View for Todo {
    type V = TodoView;

    open spec fn view(&self) -> TodoView {
        TodoView { id: self.id, title: self.title@, completed: self.completed }
    }
}

impl Clone for Todo {
    fn clone(&self) -> (r: Self)
        ensures
            r@ == self@,
    {
        Todo { id: self.id, title: self.title.clone(), completed: self.completed }
    }
}

} // verus!
