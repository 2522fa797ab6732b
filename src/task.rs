use vstd::prelude::*;

use crate::error::TaskError;
use crate::text::{any_contains, is_substring, lower_of, lowercase};

verus! {

/// How urgent a task is.
#[derive(Debug, Clone, Copy, PartialEq, Eq, Structural)]
pub enum Priority {
    Low,
    Medium,
    High,
    Critical,
}

/// The accepted spellings of each priority, already in lower case.
pub open spec fn priority_of_word(w: Seq<char>) -> Option<Priority> {
    if w == "low"@ || w == "l"@ {
        Some(Priority::Low)
    } else if w == "medium"@ || w == "m"@ {
        Some(Priority::Medium)
    } else if w == "high"@ || w == "h"@ {
        Some(Priority::High)
    } else if w == "critical"@ || w == "c"@ {
        Some(Priority::Critical)
    } else {
        None
    }
}

/// The outcome of reading a priority from an already lower-cased word.
pub open spec fn parse_priority(w: Seq<char>) -> Result<Priority, TaskError> {
    match priority_of_word(w) {
        Some(p) => Ok(p),
        None => Err(TaskError::InvalidInput),
    }
}

fn word_is(w: &str, lit: &str) -> (r: bool)
    ensures
        r == (w@ == lit@),
{
    String::from_str(w) == String::from_str(lit)
}

impl Priority {
    /// Reads a priority from its full name or its first letter, in any case.
    pub fn from_str(s: &str) -> (r: Result<Priority, TaskError>)
        ensures
            r == parse_priority(lower_of(s@)),
    {
        let lower = lowercase(s);
        Priority::from_lowercase(lower.as_str())
    }

    /// Reads a priority from a word that is already in lower case.
    pub fn from_lowercase(w: &str) -> (r: Result<Priority, TaskError>)
        ensures
            r == parse_priority(w@),
    {
        if word_is(w, "low") || word_is(w, "l") {
            Ok(Priority::Low)
        } else if word_is(w, "medium") || word_is(w, "m") {
            Ok(Priority::Medium)
        } else if word_is(w, "high") || word_is(w, "h") {
            Ok(Priority::High)
        } else if word_is(w, "critical") || word_is(w, "c") {
            Ok(Priority::Critical)
        } else {
            Err(TaskError::InvalidInput)
        }
    }

    /// The display name of the priority.
    pub fn label(&self) -> (r: &'static str)
        ensures
            r@ == match self {
                Priority::Low => "Low"@,
                Priority::Medium => "Medium"@,
                Priority::High => "High"@,
                Priority::Critical => "Critical"@,
            },
    {
        match self {
            Priority::Low => "Low",
            Priority::Medium => "Medium",
            Priority::High => "High",
            Priority::Critical => "Critical",
        }
    }
}

/// Where a task stands in its workflow.
#[derive(Debug, Clone, Copy, PartialEq, Eq, Structural)]
pub enum TaskStatus {
    Pending,
    InProgress,
    Completed,
}

impl TaskStatus {
    /// The display name of the status.
    pub fn label(&self) -> (r: &'static str)
        ensures
            r@ == match self {
                TaskStatus::Pending => "Pending"@,
                TaskStatus::InProgress => "In Progress"@,
                TaskStatus::Completed => "Completed"@,
            },
    {
        match self {
            TaskStatus::Pending => "Pending",
            TaskStatus::InProgress => "In Progress",
            TaskStatus::Completed => "Completed",
        }
    }
}

/// One tracked unit of work.
#[derive(Debug, Clone)]
pub struct Task {
    pub id: u32,
    pub title: String,
    pub description: String,
    pub priority: Priority,
    pub status: TaskStatus,
    pub tags: Vec<String>,
}

/// A task with its texts as character sequences.
pub struct TaskView {
    pub id: u32,
    pub title: Seq<char>,
    pub description: Seq<char>,
    pub priority: Priority,
    pub status: TaskStatus,
    pub tags: Seq<Seq<char>>,
}

impl View for Task {
    type V = TaskView;

    open spec fn view(&self) -> TaskView {
        TaskView {
            id: self.id,
            title: self.title@,
            description: self.description@,
            priority: self.priority,
            status: self.status,
            tags: self.tags@.map_values(|t: String| t@),
        }
    }
}

/// `tags` with `tag` appended, unless it is already among them.
pub open spec fn with_tag(tags: Seq<Seq<char>>, tag: Seq<char>) -> Seq<Seq<char>> {
    if tags.contains(tag) {
        tags
    } else {
        tags.push(tag)
    }
}

impl TaskView {
    /// The keyword occurs, ignoring case, in the title, the description or a tag.
    pub open spec fn matches(self, keyword: Seq<char>) -> bool {
        let k = lower_of(keyword);
        is_substring(lower_of(self.title), k) || is_substring(lower_of(self.description), k)
            || exists|i: int| 0 <= i < self.tags.len() && is_substring(lower_of(#[trigger] self.tags[i]), k)
    }
}

impl Task {
    /// A pending task without tags.
    pub fn new(id: u32, title: String, description: String, priority: Priority) -> (r: Task)
        ensures
            r@.id == id,
            r@.title == title@,
            r@.description == description@,
            r@.priority == priority,
            r@.status == TaskStatus::Pending,
            r@.tags == Seq::<Seq<char>>::empty(),
    {
        Task { id, title, description, priority, status: TaskStatus::Pending, tags: Vec::new() }
    }

    /// Appends `tag` unless the task already carries it.
    pub fn add_tag(&mut self, tag: String)
        ensures
            final(self)@.id == old(self)@.id,
            final(self)@.title == old(self)@.title,
            final(self)@.description == old(self)@.description,
            final(self)@.priority == old(self)@.priority,
            final(self)@.status == old(self)@.status,
            final(self)@.tags == with_tag(old(self)@.tags, tag@),
    {
        let mut i: usize = 0;
        while i < self.tags.len()
            invariant
                i <= self.tags@.len(),
                forall|j: int| 0 <= j < i ==> (#[trigger] self.tags@[j])@ != tag@,
            decreases self.tags@.len() - i,
        {
            if self.tags[i] == tag {
                proof {
                    assert(self@.tags[i as int] == tag@);
                }
                return;
            }
            i = i + 1;
        }
        proof {
            assert(!self@.tags.contains(tag@)) by {
                if self@.tags.contains(tag@) {
                    let j = choose|j: int| 0 <= j < self@.tags.len() && self@.tags[j] == tag@;
                    assert(self.tags@[j]@ == tag@);
                }
            }
        }
        let ghost before = self.tags@;
        self.tags.push(tag);
        proof {
            assert(self@.tags =~= before.map_values(|t: String| t@).push(tag@));
        }
    }

    /// Sets the status, whatever it was.
    pub fn update_status(&mut self, status: TaskStatus)
        ensures
            final(self)@ == (TaskView { status, ..old(self)@ }),
    {
        self.status = status;
    }

    /// Whether `filter` occurs, ignoring case, in the title, the description or a tag.
    pub fn matches_filter(&self, filter: &str) -> (r: bool)
        ensures
            r == self@.matches(filter@),
    {
        let keyword = lowercase(filter);
        let mut fields: Vec<String> = Vec::new();
        fields.push(lowercase(self.title.as_str()));
        fields.push(lowercase(self.description.as_str()));
        let mut i: usize = 0;
        while i < self.tags.len()
            invariant
                i <= self.tags@.len(),
                fields@.len() == i + 2,
                fields@[0]@ == lower_of(self@.title),
                fields@[1]@ == lower_of(self@.description),
                forall|j: int| 0 <= j < i ==> (#[trigger] fields@[j + 2])@ == lower_of(self@.tags[j]),
            decreases self.tags@.len() - i,
        {
            fields.push(lowercase(self.tags[i].as_str()));
            i = i + 1;
        }
        let r = any_contains(&fields, keyword.as_str());
        proof {
            let k = lower_of(filter@);
            if r {
                let i = choose|i: int| 0 <= i < fields@.len() && is_substring(#[trigger] fields@[i]@, k);
                if i >= 2 {
                    assert(fields@[(i - 2) + 2]@ == lower_of(self@.tags[i - 2]));
                }
            }
            if self@.matches(filter@) {
                if is_substring(lower_of(self@.title), k) {
                    assert(is_substring(fields@[0]@, k));
                } else if is_substring(lower_of(self@.description), k) {
                    assert(is_substring(fields@[1]@, k));
                } else {
                    let j = choose|j: int| 0 <= j < self@.tags.len() && is_substring(lower_of(#[trigger] self@.tags[j]), k);
                    assert(fields@[j + 2]@ == lower_of(self@.tags[j]));
                    assert(is_substring(fields@[j + 2]@, k));
                }
            }
        }
        r
    }
}

} // verus!
