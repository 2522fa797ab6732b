use vstd::prelude::*;

use crate::error::TaskError;
use crate::task::{with_tag, Priority, Task, TaskStatus, TaskView};

verus! {

/// The abstract store: its tasks in ascending id order, and the next id to hand out.
pub struct StoreView {
    pub tasks: Seq<TaskView>,
    pub next_id: u32,
}

/// Keeps the tasks for which `pred` holds, in the same order.
pub open spec fn keep(tasks: Seq<TaskView>, pred: spec_fn(TaskView) -> bool) -> Seq<TaskView> {
    tasks.filter(pred)
}

/// Holds of the tasks that match `keyword`.
pub open spec fn matching(keyword: Seq<char>) -> spec_fn(TaskView) -> bool {
    |t: TaskView| t.matches(keyword)
}

/// Holds of the tasks of priority `p`.
pub open spec fn of_priority(p: Priority) -> spec_fn(TaskView) -> bool {
    |t: TaskView| t.priority == p
}

/// Holds of the tasks in status `s`.
pub open spec fn of_status(s: TaskStatus) -> spec_fn(TaskView) -> bool {
    |t: TaskView| t.status == s
}

/// The tasks that a sequence of references points to.
pub open spec fn views(r: Seq<&Task>) -> Seq<TaskView> {
    r.map_values(|t: &Task| t@)
}

/// How many tasks are in status `s`.
pub open spec fn count_status(tasks: Seq<TaskView>, s: TaskStatus) -> nat {
    tasks.filter(of_status(s)).len()
}

/// A new pending task without tags.
pub open spec fn fresh_task(id: u32, title: Seq<char>, description: Seq<char>, priority: Priority) -> TaskView {
    TaskView {
        id,
        title,
        description,
        priority,
        status: TaskStatus::Pending,
        tags: Seq::empty(),
    }
}

impl StoreView {
    /// Ids ascend strictly, are positive and below `next_id`; titles are pairwise
    /// distinct; tags within a task are pairwise distinct.
    pub open spec fn well_formed(self) -> bool {
        &&& 1 <= self.next_id
        &&& forall|i: int, j: int|
            0 <= i < j < self.tasks.len() ==> #[trigger] self.tasks[i].id < #[trigger] self.tasks[j].id
        &&& forall|i: int| 0 <= i < self.tasks.len() ==> 1 <= #[trigger] self.tasks[i].id < self.next_id
        &&& forall|i: int, j: int|
            0 <= i < self.tasks.len() && 0 <= j < self.tasks.len() && i != j
                ==> #[trigger] self.tasks[i].title != #[trigger] self.tasks[j].title
        &&& forall|i: int| 0 <= i < self.tasks.len() ==> (#[trigger] self.tasks[i]).tags.no_duplicates()
    }

    /// Some stored task has id `id`.
    pub open spec fn has_id(self, id: u32) -> bool {
        exists|i: int| 0 <= i < self.tasks.len() && (#[trigger] self.tasks[i]).id == id
    }

    /// Some stored task has exactly this title.
    pub open spec fn has_title(self, title: Seq<char>) -> bool {
        exists|i: int| 0 <= i < self.tasks.len() && (#[trigger] self.tasks[i]).title == title
    }

    /// The position of the task with id `id`, where there is one.
    pub open spec fn position(self, id: u32) -> int {
        choose|i: int| 0 <= i < self.tasks.len() && (#[trigger] self.tasks[i]).id == id
    }

    /// The task with id `id`, if it is stored.
    pub open spec fn lookup(self, id: u32) -> Option<TaskView> {
        if self.has_id(id) {
            Some(self.tasks[self.position(id)])
        } else {
            None
        }
    }

    /// The store and the result after adding a task.
    pub open spec fn after_add(self, title: Seq<char>, description: Seq<char>, priority: Priority) -> (StoreView, Result<u32, TaskError>) {
        if self.has_title(title) {
            (self, Err(TaskError::DuplicateTask))
        } else {
            (
                StoreView {
                    tasks: self.tasks.push(fresh_task(self.next_id, title, description, priority)),
                    next_id: (self.next_id + 1) as u32,
                },
                Ok(self.next_id),
            )
        }
    }

    /// The store with the task `id` replaced by `t`.
    pub open spec fn replace(self, id: u32, t: TaskView) -> StoreView {
        StoreView { tasks: self.tasks.update(self.position(id), t), next_id: self.next_id }
    }

    /// The store after setting the status of task `id`.
    pub open spec fn after_status(self, id: u32, status: TaskStatus) -> (StoreView, Result<(), TaskError>) {
        if self.has_id(id) {
            (self.replace(id, TaskView { status, ..self.tasks[self.position(id)] }), Ok(()))
        } else {
            (self, Err(TaskError::TaskNotFound))
        }
    }

    /// The store after tagging task `id` with `tag`.
    pub open spec fn after_tag(self, id: u32, tag: Seq<char>) -> (StoreView, Result<(), TaskError>) {
        if self.has_id(id) {
            let t = self.tasks[self.position(id)];
            (self.replace(id, TaskView { tags: with_tag(t.tags, tag), ..t }), Ok(()))
        } else {
            (self, Err(TaskError::TaskNotFound))
        }
    }

    /// The store after deleting task `id`.
    pub open spec fn after_delete(self, id: u32) -> (StoreView, Result<(), TaskError>) {
        if self.has_id(id) {
            (StoreView { tasks: self.tasks.remove(self.position(id)), next_id: self.next_id }, Ok(()))
        } else {
            (self, Err(TaskError::TaskNotFound))
        }
    }
}

/// Filtering one more element of a prefix appends it exactly when it passes.
proof fn lemma_filter_step<A>(s: Seq<A>, i: int, pred: spec_fn(A) -> bool)
    requires
        0 <= i < s.len(),
    ensures
        s.subrange(0, i + 1).filter(pred) == if pred(s[i]) {
            s.subrange(0, i).filter(pred).push(s[i])
        } else {
            s.subrange(0, i).filter(pred)
        },
{
    reveal(Seq::filter);
    assert(s.subrange(0, i + 1).drop_last() =~= s.subrange(0, i));
}

proof fn lemma_with_tag_distinct(tags: Seq<Seq<char>>, tag: Seq<char>)
    requires
        tags.no_duplicates(),
    ensures
        with_tag(tags, tag).no_duplicates(),
{
    if !tags.contains(tag) {
        let t2 = tags.push(tag);
        assert forall|i: int, j: int| 0 <= i < t2.len() && 0 <= j < t2.len() && i != j implies t2[i] != t2[j] by {
            if i == tags.len() {
                assert(tags[j] == t2[j]);
            } else if j == tags.len() {
                assert(tags[i] == t2[i]);
            }
        }
    }
}

proof fn lemma_replace_keeps_wf(s: StoreView, id: u32, t: TaskView)
    requires
        s.well_formed(),
        s.has_id(id),
        t.id == id,
        t.title == s.tasks[s.position(id)].title,
        t.tags.no_duplicates(),
    ensures
        s.replace(id, t).well_formed(),
        s.replace(id, t).tasks.len() == s.tasks.len(),
{
    let p = s.position(id);
    let u = s.replace(id, t).tasks;
    assert forall|i: int| 0 <= i < u.len() implies #[trigger] u[i].id == s.tasks[i].id && u[i].title == s.tasks[i].title by {
        if i == p {
        }
    }
    assert forall|i: int, j: int| 0 <= i < j < u.len() implies #[trigger] u[i].id < #[trigger] u[j].id by {
        assert(s.tasks[i].id < s.tasks[j].id);
    }
    assert forall|i: int| 0 <= i < u.len() implies 1 <= #[trigger] u[i].id < s.next_id by {
        assert(1 <= s.tasks[i].id < s.next_id);
    }
    assert forall|i: int, j: int| 0 <= i < u.len() && 0 <= j < u.len() && i != j implies #[trigger] u[i].title != #[trigger] u[j].title by {
        assert(s.tasks[i].title != s.tasks[j].title);
    }
    assert forall|i: int| 0 <= i < u.len() implies (#[trigger] u[i]).tags.no_duplicates() by {
        if i != p {
            assert(u[i] == s.tasks[i]);
        }
    }
}

proof fn lemma_remove_keeps_wf(s: StoreView, id: u32)
    requires
        s.well_formed(),
        s.has_id(id),
    ensures
        s.after_delete(id).0.well_formed(),
{
    let p = s.position(id);
    let u = s.tasks.remove(p);
    assert forall|i: int| 0 <= i < u.len() implies #[trigger] u[i] == s.tasks[if i < p { i } else { i + 1 }] by {}
    assert forall|i: int, j: int| 0 <= i < j < u.len() implies #[trigger] u[i].id < #[trigger] u[j].id by {
        let a = if i < p { i } else { i + 1 };
        let b = if j < p { j } else { j + 1 };
        assert(u[i] == s.tasks[a] && u[j] == s.tasks[b]);
        assert(s.tasks[a].id < s.tasks[b].id);
    }
    assert forall|i: int| 0 <= i < u.len() implies 1 <= #[trigger] u[i].id < s.next_id by {
        let a = if i < p { i } else { i + 1 };
        assert(u[i] == s.tasks[a]);
        assert(1 <= s.tasks[a].id < s.next_id);
    }
    assert forall|i: int, j: int| 0 <= i < u.len() && 0 <= j < u.len() && i != j implies #[trigger] u[i].title != #[trigger] u[j].title by {
        let a = if i < p { i } else { i + 1 };
        let b = if j < p { j } else { j + 1 };
        assert(u[i] == s.tasks[a] && u[j] == s.tasks[b]);
        assert(s.tasks[a].title != s.tasks[b].title);
    }
    assert forall|i: int| 0 <= i < u.len() implies (#[trigger] u[i]).tags.no_duplicates() by {
        let a = if i < p { i } else { i + 1 };
        assert(u[i] == s.tasks[a]);
        assert(s.tasks[a].tags.no_duplicates());
    }
}

proof fn lemma_view_of_update(v: Seq<Task>, i: int)
    requires
        0 <= i < v.len(),
    ensures
        forall|t: Task|
            (#[trigger] v.update(i, t)).map_values(|x: Task| x@) == v.map_values(|x: Task| x@).update(i, t@),
{
    assert forall|t: Task| (#[trigger] v.update(i, t)).map_values(|x: Task| x@) == v.map_values(|x: Task| x@).update(i, t@) by {
        assert(v.update(i, t).map_values(|x: Task| x@) =~= v.map_values(|x: Task| x@).update(i, t@));
    }
}

/// The owner of all tasks and of the id counter.
pub struct TaskManager {
    tasks: Vec<Task>,
    next_id: u32,
}

impl View for TaskManager {
    type V = StoreView;

    closed spec fn view(&self) -> StoreView {
        StoreView { tasks: self.tasks@.map_values(|t: Task| t@), next_id: self.next_id }
    }
}

impl TaskManager {
    /// The store's invariant holds.
    pub open spec fn wf(&self) -> bool {
        self@.well_formed()
    }

    /// An empty store whose first id is 1.
    pub fn new() -> (r: TaskManager)
        ensures
            r.wf(),
            r@ == crate::laws::empty_store(),
    {
        let r = TaskManager { tasks: Vec::new(), next_id: 1 };
        proof {
            assert(r@.tasks =~= Seq::<TaskView>::empty());
        }
        r
    }

    /// The id that the next successful add will hand out.
    pub fn next_id(&self) -> (r: u32)
        ensures
            r == self@.next_id,
    {
        self.next_id
    }

    fn position(&self, id: u32) -> (r: Option<usize>)
        requires
            self.wf(),
        ensures
            r is None <==> !self@.has_id(id),
            r matches Some(i) ==> i == self@.position(id) && i < self@.tasks.len(),
    {
        let mut i: usize = 0;
        while i < self.tasks.len()
            invariant
                self.wf(),
                i <= self.tasks@.len(),
                forall|j: int| 0 <= j < i ==> (#[trigger] self@.tasks[j]).id != id,
            decreases self.tasks@.len() - i,
        {
            if self.tasks[i].id == id {
                proof {
                    assert(self@.tasks[i as int].id == id);
                    assert(self@.has_id(id));
                    let p = self@.position(id);
                    if p != i {
                        if p < i {
                            assert(self@.tasks[p].id < self@.tasks[i as int].id);
                        } else {
                            assert(self@.tasks[i as int].id < self@.tasks[p].id);
                        }
                    }
                }
                return Some(i);
            }
            i = i + 1;
        }
        None
    }
    /// Adds a pending, untagged task under the next id, unless the title is taken.
    pub fn add_task(&mut self, title: String, description: String, priority: Priority) -> (r: Result<u32, TaskError>)
        requires
            old(self).wf(),
            old(self)@.next_id < u32::MAX,
        ensures
            final(self).wf(),
            (final(self)@, r) == old(self)@.after_add(title@, description@, priority),
    {
        let mut i: usize = 0;
        while i < self.tasks.len()
            invariant
                self@ == old(self)@,
                self.wf(),
                i <= self.tasks@.len(),
                forall|j: int| 0 <= j < i ==> (#[trigger] self@.tasks[j]).title != title@,
            decreases self.tasks@.len() - i,
        {
            if self.tasks[i].title == title {
                proof {
                    assert(self@.tasks[i as int].title == title@);
                }
                return Err(TaskError::DuplicateTask);
            }
            i = i + 1;
        }
        let ghost before = self@;
        let ghost t = title@;
        let id = self.next_id;
        let task = Task::new(id, title, description, priority);
        self.tasks.push(task);
        self.next_id = self.next_id + 1;
        proof {
            let u = self@.tasks;
            assert(u =~= before.tasks.push(fresh_task(id, t, description@, priority)));
            assert(!before.has_title(t));
            assert forall|i: int, j: int| 0 <= i < u.len() && 0 <= j < u.len() && i != j implies #[trigger] u[i].title != #[trigger] u[j].title by {
                if i == before.tasks.len() {
                    assert(before.tasks[j].title != t);
                } else if j == before.tasks.len() {
                    assert(before.tasks[i].title != t);
                }
            }
            assert forall|i: int| 0 <= i < u.len() implies (#[trigger] u[i]).tags.no_duplicates() by {
                if i < before.tasks.len() {
                    assert(u[i] == before.tasks[i]);
                }
            }
        }
        Ok(id)
    }

    /// The task with id `id`.
    pub fn get_task(&self, id: u32) -> (r: Result<&Task, TaskError>)
        requires
            self.wf(),
        ensures
            match r {
                Ok(t) => self@.lookup(id) == Some(t@),
                Err(e) => self@.lookup(id) is None && e == TaskError::TaskNotFound,
            },
    {
        match self.position(id) {
            Some(i) => Ok(&self.tasks[i]),
            None => Err(TaskError::TaskNotFound),
        }
    }

    /// The task with id `id`, to be changed in place.
    pub fn get_task_mut(&mut self, id: u32) -> (r: Result<&mut Task, TaskError>)
        requires
            old(self).wf(),
        ensures
            r is Ok <==> old(self)@.has_id(id),
            r is Ok ==> (*(r->Ok_0))@ == old(self)@.tasks[old(self)@.position(id)],
            r is Ok ==> final(self)@ == old(self)@.replace(id, (*final(r->Ok_0))@),
            r is Err ==> final(self)@ == old(self)@ && r == Err::<&mut Task, TaskError>(TaskError::TaskNotFound),
    {
        match self.position(id) {
            Some(i) => {
                proof {
                    lemma_view_of_update(self.tasks@, i as int);
                }
                let t = &mut self.tasks[i];
                Ok(t)
            },
            None => Err(TaskError::TaskNotFound),
        }
    }

    /// Sets the status of task `id`.
    pub fn update_task_status(&mut self, id: u32, status: TaskStatus) -> (r: Result<(), TaskError>)
        requires
            old(self).wf(),
        ensures
            final(self).wf(),
            (final(self)@, r) == old(self)@.after_status(id, status),
    {
        let ghost s = self@;
        match self.get_task_mut(id) {
            Ok(task) => {
                task.update_status(status);
                proof {
                    lemma_replace_keeps_wf(s, id, TaskView { status, ..s.tasks[s.position(id)] });
                }
                Ok(())
            },
            Err(e) => Err(e),
        }
    }

    /// Tags task `id` with `tag`, unless it already carries it.
    pub fn add_tag_to_task(&mut self, id: u32, tag: String) -> (r: Result<(), TaskError>)
        requires
            old(self).wf(),
        ensures
            final(self).wf(),
            (final(self)@, r) == old(self)@.after_tag(id, tag@),
    {
        let ghost s = self@;
        let ghost tg = tag@;
        match self.get_task_mut(id) {
            Ok(task) => {
                task.add_tag(tag);
                proof {
                    let t = s.tasks[s.position(id)];
                    lemma_with_tag_distinct(t.tags, tg);
                    lemma_replace_keeps_wf(s, id, TaskView { tags: with_tag(t.tags, tg), ..t });
                }
                Ok(())
            },
            Err(e) => Err(e),
        }
    }

    /// Removes task `id`; its id is not handed out again.
    pub fn delete_task(&mut self, id: u32) -> (r: Result<(), TaskError>)
        requires
            old(self).wf(),
        ensures
            final(self).wf(),
            (final(self)@, r) == old(self)@.after_delete(id),
    {
        match self.position(id) {
            Some(i) => {
                let ghost before = self.tasks@;
                let _ = self.tasks.remove(i);
                proof {
                    assert(self@.tasks =~= before.map_values(|t: Task| t@).remove(i as int));
                    lemma_remove_keeps_wf(old(self)@, id);
                }
                Ok(())
            },
            None => Err(TaskError::TaskNotFound),
        }
    }
    /// All tasks, in ascending id order.
    pub fn list_tasks(&self) -> (r: Vec<&Task>)
        requires
            self.wf(),
        ensures
            views(r@) == self@.tasks,
    {
        let mut r: Vec<&Task> = Vec::new();
        let mut i: usize = 0;
        while i < self.tasks.len()
            invariant
                i <= self.tasks@.len(),
                views(r@) == self@.tasks.subrange(0, i as int),
            decreases self.tasks@.len() - i,
        {
            let ghost before = r@;
            r.push(&self.tasks[i]);
            proof {
                assert(views(r@) =~= views(before).push(self@.tasks[i as int]));
                assert(self@.tasks.subrange(0, i + 1) =~= self@.tasks.subrange(0, i as int).push(self@.tasks[i as int]));
            }
            i = i + 1;
        }
        proof {
            assert(self@.tasks.subrange(0, i as int) =~= self@.tasks);
        }
        r
    }

    /// The tasks in which `filter` occurs, ignoring case, in the title, the
    /// description or a tag; in ascending id order.
    pub fn filter_tasks(&self, filter: &str) -> (r: Vec<&Task>)
        requires
            self.wf(),
        ensures
            views(r@) == keep(self@.tasks, matching(filter@)),
    {
        let mut r: Vec<&Task> = Vec::new();
        let mut i: usize = 0;
        while i < self.tasks.len()
            invariant
                i <= self.tasks@.len(),
                views(r@) == self@.tasks.subrange(0, i as int).filter(matching(filter@)),
            decreases self.tasks@.len() - i,
        {
            proof {
                lemma_filter_step(self@.tasks, i as int, matching(filter@));
            }
            let ghost before = r@;
            if self.tasks[i].matches_filter(filter) {
                r.push(&self.tasks[i]);
                proof {
                    assert(views(r@) =~= views(before).push(self@.tasks[i as int]));
                }
            }
            i = i + 1;
        }
        proof {
            assert(self@.tasks.subrange(0, i as int) =~= self@.tasks);
        }
        r
    }

    /// The tasks of priority `priority`, in ascending id order.
    pub fn get_tasks_by_priority(&self, priority: Priority) -> (r: Vec<&Task>)
        requires
            self.wf(),
        ensures
            views(r@) == keep(self@.tasks, of_priority(priority)),
    {
        let mut r: Vec<&Task> = Vec::new();
        let mut i: usize = 0;
        while i < self.tasks.len()
            invariant
                i <= self.tasks@.len(),
                views(r@) == self@.tasks.subrange(0, i as int).filter(of_priority(priority)),
            decreases self.tasks@.len() - i,
        {
            proof {
                lemma_filter_step(self@.tasks, i as int, of_priority(priority));
            }
            let ghost before = r@;
            if self.tasks[i].priority == priority {
                r.push(&self.tasks[i]);
                proof {
                    assert(views(r@) =~= views(before).push(self@.tasks[i as int]));
                }
            }
            i = i + 1;
        }
        proof {
            assert(self@.tasks.subrange(0, i as int) =~= self@.tasks);
        }
        r
    }

    /// The tasks in status `status`, in ascending id order.
    pub fn get_tasks_by_status(&self, status: TaskStatus) -> (r: Vec<&Task>)
        requires
            self.wf(),
        ensures
            views(r@) == keep(self@.tasks, of_status(status)),
    {
        let mut r: Vec<&Task> = Vec::new();
        let mut i: usize = 0;
        while i < self.tasks.len()
            invariant
                i <= self.tasks@.len(),
                views(r@) == self@.tasks.subrange(0, i as int).filter(of_status(status)),
            decreases self.tasks@.len() - i,
        {
            proof {
                lemma_filter_step(self@.tasks, i as int, of_status(status));
            }
            let ghost before = r@;
            if self.tasks[i].status == status {
                r.push(&self.tasks[i]);
                proof {
                    assert(views(r@) =~= views(before).push(self@.tasks[i as int]));
                }
            }
            i = i + 1;
        }
        proof {
            assert(self@.tasks.subrange(0, i as int) =~= self@.tasks);
        }
        r
    }

    /// The number of tasks, then how many are completed, in progress and pending.
    pub fn get_statistics(&self) -> (r: (usize, usize, usize, usize))
        requires
            self.wf(),
        ensures
            r.0 == self@.tasks.len(),
            r.1 == count_status(self@.tasks, TaskStatus::Completed),
            r.2 == count_status(self@.tasks, TaskStatus::InProgress),
            r.3 == count_status(self@.tasks, TaskStatus::Pending),
            r.1 + r.2 + r.3 == r.0,
    {
        let total = self.tasks.len();
        let mut completed: usize = 0;
        let mut in_progress: usize = 0;
        let mut pending: usize = 0;
        let mut i: usize = 0;
        while i < self.tasks.len()
            invariant
                i <= self.tasks@.len(),
                completed == count_status(self@.tasks.subrange(0, i as int), TaskStatus::Completed),
                in_progress == count_status(self@.tasks.subrange(0, i as int), TaskStatus::InProgress),
                pending == count_status(self@.tasks.subrange(0, i as int), TaskStatus::Pending),
                completed + in_progress + pending == i,
            decreases self.tasks@.len() - i,
        {
            proof {
                lemma_filter_step(self@.tasks, i as int, of_status(TaskStatus::Completed));
                lemma_filter_step(self@.tasks, i as int, of_status(TaskStatus::InProgress));
                lemma_filter_step(self@.tasks, i as int, of_status(TaskStatus::Pending));
            }
            match self.tasks[i].status {
                TaskStatus::Completed => completed = completed + 1,
                TaskStatus::InProgress => in_progress = in_progress + 1,
                TaskStatus::Pending => pending = pending + 1,
            }
            i = i + 1;
        }
        proof {
            assert(self@.tasks.subrange(0, i as int) =~= self@.tasks);
        }
        (total, completed, in_progress, pending)
    }
}

} // verus!
