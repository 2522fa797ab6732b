use vstd::prelude::*;

use crate::store::TaskManager;
use crate::task::{parse_priority, Priority, TaskStatus};
use crate::text::lower_of;

verus! {

/// The command shell's state: the store it drives.
pub struct CLI {
    pub task_manager: TaskManager,
}

impl CLI {
    /// A shell over an empty store.
    pub fn new() -> (r: CLI)
        ensures
            r.task_manager.wf(),
            r.task_manager@ == crate::laws::empty_store(),
    {
        CLI { task_manager: TaskManager::new() }
    }
}

/// The status that a command token names: `pending`, `progress` or `completed`.
pub open spec fn status_of_word(w: Seq<char>) -> Option<TaskStatus> {
    if w == "pending"@ {
        Some(TaskStatus::Pending)
    } else if w == "progress"@ {
        Some(TaskStatus::InProgress)
    } else if w == "completed"@ {
        Some(TaskStatus::Completed)
    } else {
        None
    }
}

/// Reads a status token; the match is exact and case-sensitive.
pub fn parse_status(w: &str) -> (r: Option<TaskStatus>)
    ensures
        r == status_of_word(w@),
{
    let s = String::from_str(w);
    if s == String::from_str("pending") {
        Some(TaskStatus::Pending)
    } else if s == String::from_str("progress") {
        Some(TaskStatus::InProgress)
    } else if s == String::from_str("completed") {
        Some(TaskStatus::Completed)
    } else {
        None
    }
}

/// The priority given when adding a task interactively: an unreadable entry
/// falls back to `Medium`.
pub fn entered_priority(s: &str) -> (r: Priority)
    ensures
        r == match parse_priority(lower_of(s@)) {
            Ok(p) => p,
            Err(_) => Priority::Medium,
        },
{
    match Priority::from_str(s) {
        Ok(p) => p,
        Err(_) => Priority::Medium,
    }
}

/// The words separated by single spaces.
pub open spec fn joined(words: Seq<Seq<char>>) -> Seq<char>
    decreases words.len(),
{
    if words.len() == 0 {
        Seq::empty()
    } else if words.len() == 1 {
        words[0]
    } else {
        joined(words.drop_last()) + " "@ + words.last()
    }
}

/// Joins the words with single spaces, as the shell does for tags and keywords.
pub fn join_words(words: &Vec<String>) -> (r: String)
    ensures
        r@ == joined(words@.map_values(|w: String| w@)),
{
    let ghost ws = words@.map_values(|w: String| w@);
    let mut r = String::new();
    let mut i: usize = 0;
    while i < words.len()
        invariant
            i <= words@.len(),
            ws == words@.map_values(|w: String| w@),
            r@ == joined(ws.subrange(0, i as int)),
        decreases words@.len() - i,
    {
        proof {
            assert(ws.subrange(0, i + 1).drop_last() =~= ws.subrange(0, i as int));
        }
        if i > 0 {
            r.append(" ");
        }
        r.append(words[i].as_str());
        proof {
            if i == 0 {
                assert(r@ =~= ws.subrange(0, 1)[0]);
            } else {
                assert(r@ =~= joined(ws.subrange(0, i as int)) + " "@ + ws[i as int]);
            }
        }
        i = i + 1;
    }
    proof {
        assert(ws.subrange(0, i as int) =~= ws);
    }
    r
}

} // verus!
