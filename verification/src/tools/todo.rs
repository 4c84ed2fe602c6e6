//! The agent's task plan, replaced as a whole on every call.
use crate::text::{
    push_str, string_of,
};
use vstd::prelude::*;

verus! {

/// Error of the plan tool.
pub struct TodoError(pub String);

impl TodoError {
    /// The error as shown to the model: `todo error: ` and the message.
    pub fn display(&self) -> (r: String)
        ensures
            r@ == "todo error: "@ + self.0@,
    {
        let mut out: Vec<char> = Vec::new();
        push_str(&mut out, "todo error: ");
        push_str(&mut out, self.0.as_str());
        string_of(&out)
    }
}

/// Where a step of the plan stands.
#[derive(Clone, Copy, PartialEq, Eq, Structural)]
pub enum TodoStatus {
    Pending,
    InProgress,
    Completed,
}

/// One step of the plan.
pub struct TodoItem {
    pub id: String,
    pub content: String,
    pub status: TodoStatus,
}

/// A step as plain values.
pub open spec fn item_view(t: TodoItem) -> (Seq<char>, Seq<char>, TodoStatus) {
    (t.id@, t.content@, t.status)
}

pub open spec fn items_view(v: Seq<TodoItem>) -> Seq<(Seq<char>, Seq<char>, TodoStatus)> {
    v.map_values(|t: TodoItem| item_view(t))
}

/// Arguments of `todo_write`: the complete, up-to-date list.
pub struct TodoWriteArgs {
    pub todos: Vec<TodoItem>,
}

/// Holds the current plan.
pub struct TodoWrite {
    store: Vec<TodoItem>,
}

/// The reply to every plan update.
pub const PLAN_UPDATED: &'static str = "Plan updated.";

impl TodoWrite {
    /// The plan as it stands.
    pub closed spec fn plan(&self) -> Seq<(Seq<char>, Seq<char>, TodoStatus)> {
        items_view(self.store@)
    }

    pub fn new(store: Vec<TodoItem>) -> (r: Self)
        ensures
            r.plan() == items_view(store@),
    {
        TodoWrite { store }
    }

    /// Replace the whole plan with the given list.
    pub fn call(&mut self, args: TodoWriteArgs) -> (r: &'static str)
        ensures
            final(self).plan() == items_view(args.todos@),
            r@ == PLAN_UPDATED@,
    {
        self.store = args.todos;
        PLAN_UPDATED
    }

    /// The steps of the plan, in order.
    pub fn items(&self) -> (r: &Vec<TodoItem>)
        ensures
            items_view(r@) == self.plan(),
    {
        &self.store
    }
}

} // verus!
