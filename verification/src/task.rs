//! A single to-do item: identity, text fields, completion flag, and an
//! optional deadline written as a `YYYY-MM-DD` date string.

use vstd::prelude::*;
use vstd::string::StringExecFns;
use crate::digits::{dec_digits, u32_to_string};

verus! {

/// The mathematical value of a [`Task`]: every field as a plain value.
pub struct TaskView {
    pub id: u32,
    pub title: Seq<char>,
    pub description: Seq<char>,
    pub completed: bool,
    pub deadline: Option<Seq<char>>,
}

/// A single to-do item. The `id` is supplied by the caller and is not checked
/// for uniqueness; lookups keyed by id act on the first match in list order.
pub struct Task {
    id: u32,
    title: String,
    description: String,
    completed: bool,
    deadline: Option<String>,
}

impl View for Task {
    type V = TaskView;

    closed spec fn view(&self) -> TaskView {
        TaskView {
            id: self.id,
            title: self.title@,
            description: self.description@,
            completed: self.completed,
            deadline: match self.deadline {
                Some(d) => Some(d@),
                None => None,
            },
        }
    }
}

/// The view of `t` after one completion toggle: the flag flipped, every other
/// field unchanged.
pub open spec fn toggled(t: TaskView) -> TaskView {
    TaskView { completed: !t.completed, ..t }
}

impl Task {
    /// A fresh task: not completed, no deadline.
    pub fn new(id: u32, title: String, description: String) -> (r: Task)
        ensures
            r@ == (TaskView {
                id,
                title: title@,
                description: description@,
                completed: false,
                deadline: None,
            }),
    {
        Task { id, title, description, completed: false, deadline: None }
    }

    pub fn get_id(&self) -> (r: u32)
        ensures
            r == self@.id,
    {
        self.id
    }

    pub fn get_title(&self) -> (r: &str)
        ensures
            r@ == self@.title,
    {
        self.title.as_str()
    }

    pub fn get_description(&self) -> (r: &str)
        ensures
            r@ == self@.description,
    {
        self.description.as_str()
    }

    pub fn get_deadline(&self) -> (r: Option<&str>)
        ensures
            match r {
                Some(d) => self@.deadline == Some(d@),
                None => self@.deadline is None,
            },
    {
        match &self.deadline {
            Some(d) => Some(d.as_str()),
            None => None,
        }
    }

    pub fn get_completed(&self) -> (r: bool)
        ensures
            r == self@.completed,
    {
        self.completed
    }

    pub fn set_title(&mut self, title: String)
        ensures
            final(self)@ == (TaskView { title: title@, ..old(self)@ }),
    {
        self.title = title;
    }

    pub fn set_description(&mut self, description: String)
        ensures
            final(self)@ == (TaskView { description: description@, ..old(self)@ }),
    {
        self.description = description;
    }

    pub fn set_deadline(&mut self, deadline: Option<String>)
        ensures
            final(self)@ == (TaskView {
                deadline: match deadline {
                    Some(d) => Some(d@),
                    None => None,
                },
                ..old(self)@
            }),
    {
        self.deadline = deadline;
    }

    /// The task's human-readable multi-line summary: id, title, description,
    /// the deadline if one is set, and the completion status.
    pub fn summary(&self) -> (r: String)
        ensures
            r@ == summary_spec(self@),
    {
        let mut s = String::new();
        s.append("id: ");
        let id_text = u32_to_string(self.id);
        s.append(id_text.as_str());
        s.append("\ntitle: ");
        s.append(self.title.as_str());
        s.append("\ndescription: ");
        s.append(self.description.as_str());
        match &self.deadline {
            Some(d) => {
                s.append("\ndeadline: ");
                s.append(d.as_str());
            },
            None => {},
        }
        if self.completed {
            s.append("\nstatus: Completed");
        } else {
            s.append("\nstatus: Not completed");
        }
        proof {
            assert(s@ =~= summary_spec(self@));
        }
        s
    }

    /// Flip the completion flag; no direct setter exists.
    pub fn toggle_completed(&mut self)
        ensures
            final(self)@ == toggled(old(self)@),
    {
        self.completed = !self.completed;
    }
}

/// The text of a task's summary: id, title, description, the deadline if one
/// is set, and the completion status, one line each.
pub open spec fn summary_spec(t: TaskView) -> Seq<char> {
    "id: "@ + dec_digits(t.id as nat) + "\ntitle: "@ + t.title + "\ndescription: "@ + t.description
        + (match t.deadline {
            Some(d) => "\ndeadline: "@ + d,
            None => Seq::<char>::empty(),
        })
        + (if t.completed { "\nstatus: Completed"@ } else { "\nstatus: Not completed"@ })
}

/// Toggling completion twice returns a task to its original state, fields and
/// all.
pub proof fn lemma_toggle_twice(t: TaskView)
    ensures
        toggled(toggled(t)) == t,
{
}

} // verus!
