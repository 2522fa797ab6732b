use vstd::prelude::*;

use crate::error::TaskError;
use crate::store::{count_status, of_status, StoreView};
use crate::task::{with_tag, Priority, TaskStatus, TaskView};

verus! {

/// One mutating operation on the store.
pub enum StoreOp {
    Add { title: Seq<char>, description: Seq<char>, priority: Priority },
    SetStatus { id: u32, status: TaskStatus },
    Tag { id: u32, tag: Seq<char> },
    Delete { id: u32 },
}

/// The store after one operation, and the id it handed out, if any.
pub open spec fn step(s: StoreView, op: StoreOp) -> (StoreView, Option<u32>) {
    match op {
        StoreOp::Add { title, description, priority } => {
            let (s1, r) = s.after_add(title, description, priority);
            (s1, match r {
                Ok(id) => Some(id),
                Err(_) => None,
            })
        },
        StoreOp::SetStatus { id, status } => (s.after_status(id, status).0, None),
        StoreOp::Tag { id, tag } => (s.after_tag(id, tag).0, None),
        StoreOp::Delete { id } => (s.after_delete(id).0, None),
    }
}

/// The store after a sequence of operations, applied first to last.
pub open spec fn run(s: StoreView, ops: Seq<StoreOp>) -> StoreView
    decreases ops.len(),
{
    if ops.len() == 0 {
        s
    } else {
        run(step(s, ops[0]).0, ops.subrange(1, ops.len() as int))
    }
}

/// The ids handed out while a sequence of operations runs, in order.
pub open spec fn issued(s: StoreView, ops: Seq<StoreOp>) -> Seq<u32>
    decreases ops.len(),
{
    if ops.len() == 0 {
        Seq::empty()
    } else {
        let (s1, r) = step(s, ops[0]);
        let rest = issued(s1, ops.subrange(1, ops.len() as int));
        match r {
            Some(id) => seq![id] + rest,
            None => rest,
        }
    }
}

/// The store that `TaskManager::new` creates.
pub open spec fn empty_store() -> StoreView {
    StoreView { tasks: Seq::empty(), next_id: 1 }
}

/// The store and the results after adding each item, first to last.
pub open spec fn add_all(s: StoreView, items: Seq<(Seq<char>, Seq<char>, Priority)>) -> (StoreView, Seq<Result<u32, TaskError>>)
    decreases items.len(),
{
    if items.len() == 0 {
        (s, Seq::empty())
    } else {
        let (s1, rs) = add_all(s, items.drop_last());
        let it = items.last();
        let (s2, r) = s1.after_add(it.0, it.1, it.2);
        (s2, rs.push(r))
    }
}

proof fn lemma_add_all_fresh(items: Seq<(Seq<char>, Seq<char>, Priority)>)
    requires
        items.len() < u32::MAX,
        forall|i: int, j: int| 0 <= i < items.len() && 0 <= j < items.len() && i != j ==> #[trigger] items[i].0 != #[trigger] items[j].0,
    ensures
        add_all(empty_store(), items).0.next_id == items.len() + 1,
        add_all(empty_store(), items).0.tasks.len() == items.len(),
        forall|k: int| 0 <= k < items.len() ==> (#[trigger] add_all(empty_store(), items).0.tasks[k]).title == items[k].0,
        add_all(empty_store(), items).1.len() == items.len(),
        forall|k: int| 0 <= k < items.len() ==> #[trigger] add_all(empty_store(), items).1[k] == Ok::<u32, TaskError>((k + 1) as u32),
    decreases items.len(),
{
    if items.len() > 0 {
        let init = items.drop_last();
        assert forall|i: int, j: int| 0 <= i < init.len() && 0 <= j < init.len() && i != j implies #[trigger] init[i].0 != #[trigger] init[j].0 by {
            assert(items[i].0 != items[j].0);
        }
        lemma_add_all_fresh(init);
        let s1 = add_all(empty_store(), init).0;
        let it = items.last();
        assert(!s1.has_title(it.0)) by {
            if s1.has_title(it.0) {
                let k = choose|k: int| 0 <= k < s1.tasks.len() && (#[trigger] s1.tasks[k]).title == it.0;
                assert(s1.tasks[k].title == init[k].0);
                assert(items[k].0 != items[items.len() - 1].0);
            }
        }
    }
}

/// Adding tasks with pairwise distinct titles to a new store hands out the ids
/// 1, 2, 3, ... in order, so each id exceeds the one before.
pub proof fn law_ids_ascend_from_one(items: Seq<(Seq<char>, Seq<char>, Priority)>)
    requires
        items.len() < u32::MAX,
        forall|i: int, j: int| 0 <= i < items.len() && 0 <= j < items.len() && i != j ==> #[trigger] items[i].0 != #[trigger] items[j].0,
    ensures
        forall|k: int| 0 <= k < items.len() ==> #[trigger] add_all(empty_store(), items).1[k] == Ok::<u32, TaskError>((k + 1) as u32),
{
    lemma_add_all_fresh(items);
}

/// Adding a task whose title equals that of a stored task fails with
/// `DuplicateTask` and leaves the store as it was, whatever the other fields.
pub proof fn law_duplicate_title_rejected(s: StoreView, i: int, description: Seq<char>, priority: Priority)
    requires
        0 <= i < s.tasks.len(),
    ensures
        s.after_add(s.tasks[i].title, description, priority) == (s, Err::<u32, TaskError>(TaskError::DuplicateTask)),
{
    assert(s.has_title(s.tasks[i].title));
}

proof fn lemma_retired_stays_retired(s: StoreView, id: u32, ops: Seq<StoreOp>)
    requires
        !s.has_id(id),
        id < s.next_id,
        s.next_id + ops.len() < u32::MAX,
    ensures
        !run(s, ops).has_id(id),
        !issued(s, ops).contains(id),
    decreases ops.len(),
{
    if ops.len() > 0 {
        let (s1, r) = step(s, ops[0]);
        assert(!s1.has_id(id)) by {
            if s1.has_id(id) {
                let k = choose|k: int| 0 <= k < s1.tasks.len() && (#[trigger] s1.tasks[k]).id == id;
                match ops[0] {
                    StoreOp::Add { title, description, priority } => {
                        if !s.has_title(title) {
                            if k < s.tasks.len() {
                                assert(s1.tasks[k] == s.tasks[k]);
                            }
                        }
                    },
                    StoreOp::SetStatus { id: j, status } => {
                        if s.has_id(j) && k == s.position(j) {
                        } else if s.has_id(j) {
                            assert(s1.tasks[k] == s.tasks[k]);
                        }
                    },
                    StoreOp::Tag { id: j, tag } => {
                        if s.has_id(j) && k == s.position(j) {
                        } else if s.has_id(j) {
                            assert(s1.tasks[k] == s.tasks[k]);
                        }
                    },
                    StoreOp::Delete { id: j } => {
                        if s.has_id(j) {
                            let p = s.position(j);
                            if k < p {
                                assert(s1.tasks[k] == s.tasks[k]);
                            } else {
                                assert(s1.tasks[k] == s.tasks[k + 1]);
                            }
                        }
                    },
                }
            }
        }
        assert(s.next_id <= s1.next_id <= s.next_id + 1);
        lemma_retired_stays_retired(s1, id, ops.subrange(1, ops.len() as int));
        let rest = issued(s1, ops.subrange(1, ops.len() as int));
        if let Some(x) = r {
            assert(x == s.next_id);
            assert(issued(s, ops) == seq![x] + rest);
            assert(!(seq![x] + rest).contains(id)) by {
                if (seq![x] + rest).contains(id) {
                    let k = choose|k: int| 0 <= k < (seq![x] + rest).len() && (seq![x] + rest)[k] == id;
                    if k > 0 {
                        assert(rest[k - 1] == id);
                    }
                }
            }
        }
    }
}

/// Once a task is deleted, looking up its id fails, and keeps failing after any
/// later operations, none of which hands that id out again.
pub proof fn law_deleted_id_retired(s: StoreView, id: u32, ops: Seq<StoreOp>)
    requires
        s.well_formed(),
        s.has_id(id),
        s.next_id + ops.len() < u32::MAX,
    ensures
        s.after_delete(id).0.lookup(id) is None,
        run(s.after_delete(id).0, ops).lookup(id) is None,
        !issued(s.after_delete(id).0, ops).contains(id),
{
    let p = s.position(id);
    let s1 = s.after_delete(id).0;
    assert(!s1.has_id(id)) by {
        if s1.has_id(id) {
            let k = choose|k: int| 0 <= k < s1.tasks.len() && (#[trigger] s1.tasks[k]).id == id;
            let a = if k < p { k } else { k + 1 };
            assert(s1.tasks[k] == s.tasks[a]);
            if a < p {
                assert(s.tasks[a].id < s.tasks[p].id);
            } else {
                assert(s.tasks[p].id < s.tasks[a].id);
            }
        }
    }
    assert(id < s.next_id);
    lemma_retired_stays_retired(s1, id, ops);
}

/// Tagging with a tag already present changes nothing; the first tagging only
/// appends, so earlier tags keep their order.
pub proof fn law_with_tag_idempotent(tags: Seq<Seq<char>>, tag: Seq<char>)
    ensures
        with_tag(with_tag(tags, tag), tag) == with_tag(tags, tag),
        with_tag(tags, tag).subrange(0, tags.len() as int) == tags,
        with_tag(tags, tag).contains(tag),
{
    if !tags.contains(tag) {
        let t2 = tags.push(tag);
        assert(t2[tags.len() as int] == tag);
        assert(t2.subrange(0, tags.len() as int) =~= tags);
    } else {
        assert(tags.subrange(0, tags.len() as int) =~= tags);
    }
}

/// Tagging a task twice with the same tag leaves the store as tagging it once.
pub proof fn law_add_tag_twice(s: StoreView, id: u32, tag: Seq<char>)
    requires
        s.well_formed(),
    ensures
        s.after_tag(id, tag).0.after_tag(id, tag) == (s.after_tag(id, tag).0, s.after_tag(id, tag).1),
{
    if s.has_id(id) {
        let p = s.position(id);
        let t = s.tasks[p];
        let s1 = s.after_tag(id, tag).0;
        let t1 = TaskView { tags: with_tag(t.tags, tag), ..t };
        law_with_tag_idempotent(t.tags, tag);
        assert(s1.tasks[p] == t1);
        assert(s1.has_id(id));
        let q = s1.position(id);
        assert(q == p) by {
            if q != p {
                assert(s1.tasks[q] == s.tasks[q]);
                if q < p {
                    assert(s.tasks[q].id < s.tasks[p].id);
                } else {
                    assert(s.tasks[p].id < s.tasks[q].id);
                }
            }
        }
        assert(s1.tasks.update(p, TaskView { tags: with_tag(t1.tags, tag), ..t1 }) =~= s1.tasks);
    }
}

/// Every task is in exactly one status, so the three status counts add up to
/// the number of tasks.
pub proof fn law_status_counts_partition(tasks: Seq<TaskView>)
    ensures
        count_status(tasks, TaskStatus::Completed) + count_status(tasks, TaskStatus::InProgress)
            + count_status(tasks, TaskStatus::Pending) == tasks.len(),
    decreases tasks.len(),
{
    reveal(Seq::filter);
    if tasks.len() > 0 {
        law_status_counts_partition(tasks.drop_last());
    }
}

} // verus!
