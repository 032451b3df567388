//! Todo lists of agents.

use vstd::prelude::*;
use crate::model::Modeled;

verus! {

/// How far a todo has got.
#[derive(Clone, Copy, Debug, PartialEq, Eq, Structural)]
pub enum TodoStatus {
    Pending,
    InProgress,
    Completed,
}

/// One step of an agent's work.
#[derive(Debug, PartialEq, Eq)]
pub struct TodoItem {
    pub text: String,
    pub status: TodoStatus,
}

/// The mathematical content of a `TodoItem`.
#[verifier::ext_equal]
pub struct TodoItemView {
    pub text: Seq<char>,
    pub status: TodoStatus,
}

impl View for TodoItem {
    type V = TodoItemView;

    open spec fn view(&self) -> TodoItemView {
        TodoItemView { text: self.text@, status: self.status }
    }
}

impl Modeled for TodoItem {
    open spec fn alike(left: TodoItemView, right: TodoItemView) -> bool {
        left == right
    }

    fn duplicate(&self) -> (copy: Self) {
        TodoItem { text: self.text.clone(), status: self.status }
    }

    fn same(&self, other: &Self) -> (equal: bool) {
        self.text == other.text && self.status == other.status
    }
}

impl Clone for TodoItem {
    fn clone(&self) -> (copy: Self)
        ensures
            copy@ == self@,
    {
        self.duplicate()
    }
}

} // verus!
