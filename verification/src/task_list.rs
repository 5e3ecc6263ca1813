//! The in-memory task list: tasks with unique, increasing ids.
use vstd::prelude::*;
use crate::whitespace::{trimmed, trim_white_space};

verus! {

broadcast use vstd::string::group_string_axioms;

/// One task.
#[derive(Debug, Clone, PartialEq, Eq)]
pub struct Task {
    /// Unique id.
    pub id: u64,
    /// Text shown for the task.
    pub title: String,
    /// Whether the task is done.
    pub completed: bool,
}

/// The task `t` with its completion flipped.
pub open spec fn flipped(t: Task) -> Task {
    Task { id: t.id, title: t.title, completed: !t.completed }
}

/// `s` with the completion of every task with id `id` flipped.
pub open spec fn toggled(s: Seq<Task>, id: u64) -> Seq<Task> {
    s.map_values(|t: Task| if t.id == id { flipped(t) } else { t })
}

/// `s` without the tasks with id `id`, in the same order.
pub open spec fn without(s: Seq<Task>, id: u64) -> Seq<Task> {
    s.filter(|t: Task| t.id != id)
}

/// Number of tasks in `s` that are not done.
pub open spec fn open_count(s: Seq<Task>) -> nat {
    s.filter(|t: Task| !t.completed).len()
}

/// Ids grow strictly along `s` (so no id occurs twice).
pub open spec fn ids_ascending(s: Seq<Task>) -> bool {
    forall|i: int, j: int| 0 <= i < j < s.len() ==> #[trigger] s[i].id < #[trigger] s[j].id
}

/// No task of `s` has id `id`.
pub open spec fn has_no_id(s: Seq<Task>, id: u64) -> bool {
    forall|i: int| 0 <= i < s.len() ==> #[trigger] s[i].id != id
}

/// A task list.
#[derive(Debug)]
pub struct TaskList {
    tasks: Vec<Task>,
    next_id: u64,
}

impl View for TaskList {
    type V = Seq<Task>;

    /// The tasks, in the order they were added.
    closed spec fn view(&self) -> Seq<Task> {
        self.tasks@
    }
}

impl Default for TaskList {
    /// An empty list whose next id is 0.
    fn default() -> (r: Self)
        ensures
            r@ == Seq::<Task>::empty(),
            r.next_id_view() == 0,
            r.wf(),
    {
        TaskList { tasks: Vec::new(), next_id: 0 }
    }
}

impl TaskList {
    /// The id that the next added task gets.
    pub closed spec fn next_id_view(&self) -> u64 {
        self.next_id
    }

    /// Ids increase along the list and are all below the next id.
    pub open spec fn wf(&self) -> bool {
        &&& ids_ascending(self@)
        &&& forall|i: int| 0 <= i < self@.len() ==> #[trigger] self@[i].id < self.next_id_view()
    }

    /// An empty list whose first task gets id 1.
    pub fn new() -> (r: Self)
        ensures
            r@ == Seq::<Task>::empty(),
            r.next_id_view() == 1,
            r.wf(),
    {
        TaskList { tasks: Vec::new(), next_id: 1 }
    }

    /// The id that the next added task gets.
    pub fn next_id(&self) -> (r: u64)
        ensures
            r == self.next_id_view(),
    {
        self.next_id
    }

    /// The tasks, in order.
    pub fn tasks(&self) -> (r: &[Task])
        ensures
            r@ == self@,
    {
        self.tasks.as_slice()
    }

    /// Appends a task whose title is `title` with white space trimmed at both
    /// ends. A title that is empty after trimming is ignored. Returns the new
    /// task's id when one was added.
    pub fn add(&mut self, title: &str) -> (r: Option<u64>)
        requires
            old(self).wf(),
            trimmed(title@).len() > 0 ==> old(self).next_id_view() < u64::MAX,
        ensures
            final(self).wf(),
            trimmed(title@).len() == 0 ==> {
                &&& r == None::<u64>
                &&& final(self)@ == old(self)@
                &&& final(self).next_id_view() == old(self).next_id_view()
            },
            trimmed(title@).len() > 0 ==> {
                &&& r == Some(old(self).next_id_view())
                &&& final(self).next_id_view() == old(self).next_id_view() + 1
                &&& final(self)@.len() == old(self)@.len() + 1
                &&& final(self)@.take(old(self)@.len() as int) == old(self)@
                &&& final(self)@.last().id == old(self).next_id_view()
                &&& final(self)@.last().title@ == trimmed(title@)
                &&& !final(self)@.last().completed
            },
    {
        let trimmed_title = trim_white_space(title);
        if trimmed_title.is_empty() {
            return None;
        }
        let id = self.next_id;
        self.next_id = self.next_id + 1;
        self.tasks.push(Task { id, title: trimmed_title.to_string(), completed: false });
        proof {
            assert(self.tasks@.take(old(self)@.len() as int) =~= old(self)@);
        }
        Some(id)
    }

    /// Flips the completion of the task with id `id`; does nothing when no
    /// task has that id.
    pub fn toggle(&mut self, id: u64)
        requires
            old(self).wf(),
        ensures
            final(self).wf(),
            final(self)@ == toggled(old(self)@, id),
            final(self).next_id_view() == old(self).next_id_view(),
    {
        let n = self.tasks.len();
        let mut i: usize = 0;
        while i < n
            invariant
                n == self.tasks.len(),
                i <= n,
                self.tasks@ == old(self).tasks@,
                self.next_id == old(self).next_id,
                old(self).wf(),
                forall|j: int| 0 <= j < i ==> #[trigger] self.tasks@[j].id != id,
            decreases n - i,
        {
            if self.tasks[i].id == id {
                let done = self.tasks[i].completed;
                self.tasks[i].completed = !done;
                proof {
                    let before = old(self)@;
                    assert(self.tasks@ =~= before.update(i as int, flipped(before[i as int])));
                    assert forall|j: int| 0 <= j < before.len() && j != i implies #[trigger] before[j].id != id by {
                        if j < i {
                        } else {
                            assert(before[i as int].id < before[j].id);
                        }
                    }
                    assert(self.tasks@ =~= toggled(before, id));
                }
                return;
            }
            i = i + 1;
        }
        proof {
            assert(self.tasks@ =~= toggled(old(self)@, id));
        }
    }

    /// Removes the tasks with id `id`, keeping the order of the others.
    pub fn remove(&mut self, id: u64)
        requires
            old(self).wf(),
        ensures
            final(self).wf(),
            final(self)@ == without(old(self)@, id),
            final(self).next_id_view() == old(self).next_id_view(),
    {
        let mut all: Vec<Task> = Vec::new();
        std::mem::swap(&mut all, &mut self.tasks);
        let ghost before = all@;
        for t in it: all.into_iter()
            invariant
                it.seq() == before,
                before == old(self)@,
                old(self).wf(),
                self.next_id == old(self).next_id,
                self.tasks@ == without(before.take(it.index() as int), id),
                ids_ascending(self.tasks@),
                forall|j: int| 0 <= j < self.tasks@.len() ==> #[trigger] self.tasks@[j].id < self.next_id,
                self.tasks@.len() > 0 ==> it.index() > 0 && self.tasks@.last().id <= before[it.index() - 1].id,
        {
            proof {
                broadcast use Seq::lemma_filter_push;
                assert(before.take(it.index() + 1) =~= before.take(it.index() as int).push(t));
                assert(t == before[it.index() as int]);
                if self.tasks@.len() > 0 {
                    assert(before[it.index() - 1].id < before[it.index() as int].id);
                }
            }
            if t.id != id {
                self.tasks.push(t);
            }
        }
        proof {
            assert(before.take(before.len() as int) =~= before);
        }
    }

    /// Number of tasks that are not done.
    pub fn remaining_count(&self) -> (r: usize)
        ensures
            r == open_count(self@),
    {
        let n = self.tasks.len();
        let mut count: usize = 0;
        let mut i: usize = 0;
        while i < n
            invariant
                n == self.tasks@.len(),
                i <= n,
                count == open_count(self.tasks@.take(i as int)),
                count <= i,
            decreases n - i,
        {
            proof {
                broadcast use Seq::lemma_filter_push;
                assert(self.tasks@.take(i + 1) =~= self.tasks@.take(i as int).push(self.tasks@[i as int]));
            }
            if !self.tasks[i].completed {
                count = count + 1;
            }
            i = i + 1;
        }
        proof {
            assert(self.tasks@.take(n as int) =~= self.tasks@);
        }
        count
    }
}


/// Two tasks of a well-formed list never share an id.
pub proof fn lemma_ids_unique(list: &TaskList, i: int, j: int)
    requires
        list.wf(),
        0 <= i < list@.len(),
        0 <= j < list@.len(),
        i != j,
    ensures
        list@[i].id != list@[j].id,
{
    if i < j {
        assert(list@[i].id < list@[j].id);
    } else {
        assert(list@[j].id < list@[i].id);
    }
}

/// The id that a well-formed list gives next is held by none of its tasks,
/// and every id it holds is smaller.
pub proof fn lemma_next_id_fresh(list: &TaskList)
    requires
        list.wf(),
    ensures
        has_no_id(list@, list.next_id_view()),
{
}

/// Toggling the same id twice gives back the tasks as they were.
pub proof fn lemma_toggle_twice(s: Seq<Task>, id: u64)
    ensures
        toggled(toggled(s, id), id) == s,
{
    assert(toggled(toggled(s, id), id) =~= s);
}

/// Toggling an id that no task has changes nothing.
pub proof fn lemma_toggle_absent(s: Seq<Task>, id: u64)
    requires
        has_no_id(s, id),
    ensures
        toggled(s, id) == s,
{
    assert(toggled(s, id) =~= s);
}

/// Removing an id that no task has changes nothing.
pub proof fn lemma_remove_absent(s: Seq<Task>, id: u64)
    requires
        has_no_id(s, id),
    ensures
        without(s, id) == s,
    decreases s.len(),
{
    broadcast use Seq::lemma_filter_push;

    if s.len() == 0 {
        reveal(Seq::filter);
        assert(without(s, id) =~= s);
    } else {
        let t = s.drop_last();
        assert(s =~= t.push(s.last()));
        assert(s.last() == s[s.len() - 1]);
        lemma_remove_absent(t, id);
    }
}

/// Each part of `s` around index `k` holds no task with the id of `s[k]`
/// when ids ascend.
proof fn lemma_id_only_at(s: Seq<Task>, k: int)
    requires
        ids_ascending(s),
        0 <= k < s.len(),
    ensures
        has_no_id(s.take(k), s[k].id),
        has_no_id(s.skip(k + 1), s[k].id),
        s == s.take(k) + seq![s[k]] + s.skip(k + 1),
{
    let id = s[k].id;
    assert forall|i: int| 0 <= i < s.take(k).len() implies #[trigger] s.take(k)[i].id != id by {
        assert(s[i].id < s[k].id);
    }
    assert forall|i: int| 0 <= i < s.skip(k + 1).len() implies #[trigger] s.skip(k + 1)[i].id
        != id by {
        assert(s[k].id < s[k + 1 + i].id);
    }
    assert(s =~= s.take(k) + seq![s[k]] + s.skip(k + 1));
}

/// Removing the id of one task of an id-ascending list removes exactly that task.
pub proof fn lemma_remove_target_only(s: Seq<Task>, k: int)
    requires
        ids_ascending(s),
        0 <= k < s.len(),
    ensures
        without(s, s[k].id) == s.remove(k),
{
    broadcast use Seq::lemma_filter_push, Seq::filter_distributes_over_add;

    let id = s[k].id;
    lemma_id_only_at(s, k);
    lemma_remove_absent(s.take(k), id);
    lemma_remove_absent(s.skip(k + 1), id);
    let one = seq![s[k]];
    assert(one =~= Seq::<Task>::empty().push(s[k]));
    reveal(Seq::filter);
    assert(without(Seq::<Task>::empty(), id) =~= Seq::<Task>::empty());
    assert(without(one, id) =~= Seq::<Task>::empty());
    assert(s.remove(k) =~= s.take(k) + s.skip(k + 1));
    assert(without(s, id) =~= s.take(k) + s.skip(k + 1));
}

/// The open tasks of `s` counted around index `k`.
proof fn lemma_open_count_around(s: Seq<Task>, k: int, x: Task)
    requires
        0 <= k < s.len(),
    ensures
        open_count(s.take(k) + seq![x] + s.skip(k + 1)) == open_count(s.take(k)) + open_count(
            s.skip(k + 1),
        ) + if x.completed {
            0int
        } else {
            1int
        },
{
    broadcast use Seq::lemma_filter_push, Seq::filter_distributes_over_add;

    let one = seq![x];
    assert(one =~= Seq::<Task>::empty().push(x));
    reveal(Seq::filter);
    assert(Seq::<Task>::empty().filter(|t: Task| !t.completed) =~= Seq::<Task>::empty());
}

/// Toggling a task changes the number of open tasks by one: down when it was
/// open, up when it was done.
pub proof fn lemma_toggle_open_count(s: Seq<Task>, k: int)
    requires
        ids_ascending(s),
        0 <= k < s.len(),
    ensures
        open_count(toggled(s, s[k].id)) == if s[k].completed {
            open_count(s) + 1int
        } else {
            open_count(s) - 1
        },
{
    let id = s[k].id;
    lemma_id_only_at(s, k);
    let before = s.take(k);
    let after = s.skip(k + 1);
    assert(toggled(s, id) =~= before + seq![flipped(s[k])] + after) by {
        assert forall|i: int| 0 <= i < s.len() && i != k implies #[trigger] s[i].id != id by {
            if i < k {
                assert(before[i] == s[i]);
            } else {
                assert(after[i - k - 1] == s[i]);
            }
        }
    }
    lemma_open_count_around(s, k, flipped(s[k]));
    lemma_open_count_around(s, k, s[k]);
}

/// Removing a done task leaves the number of open tasks unchanged.
pub proof fn lemma_remove_done_keeps_open_count(s: Seq<Task>, k: int)
    requires
        ids_ascending(s),
        0 <= k < s.len(),
        s[k].completed,
    ensures
        open_count(without(s, s[k].id)) == open_count(s),
{
    broadcast use Seq::filter_distributes_over_add;

    lemma_remove_target_only(s, k);
    lemma_id_only_at(s, k);
    lemma_open_count_around(s, k, s[k]);
    assert(s.remove(k) =~= s.take(k) + s.skip(k + 1));
}

/// Appending an open task adds one open task.
pub proof fn lemma_push_open_count(s: Seq<Task>, t: Task)
    ensures
        open_count(s.push(t)) == open_count(s) + if t.completed {
            0int
        } else {
            1int
        },
{
    broadcast use Seq::lemma_filter_push;

}

/// Removing the id of a task that was just appended, with an id that no
/// earlier task has, gives back the tasks from before the append.
pub proof fn lemma_remove_undoes_add(s: Seq<Task>, t: Task)
    requires
        has_no_id(s, t.id),
    ensures
        without(s.push(t), t.id) == s,
{
    broadcast use Seq::lemma_filter_push;

    lemma_remove_absent(s, t.id);
}

} // verus!
