//! The task list: a sequence of tasks that is kept partitioned into
//! not-done tasks followed by done tasks, each partition ordered by
//! descending priority.

use vstd::prelude::*;

verus! {

use vstd::multiset::Multiset;

/// One unit of work: a name, a priority in `[0, 10]` (higher is more
/// urgent) and a completion flag.
#[derive(Debug)]
pub struct Task {
    pub name: String,
    pub priority: u8,
    pub done: bool,
}

/// The mathematical value of a task: the name as a sequence of
/// characters, the priority as an unbounded integer, and the flag.
pub struct TaskView {
    pub name: Seq<char>,
    pub priority: int,
    pub done: bool,
}

impl View for Task {
    type V = TaskView;

    open spec fn view(&self) -> TaskView {
        TaskView { name: self.name@, priority: self.priority as int, done: self.done }
    }
}

/// The order the list is kept in: every not-done task comes before
/// every done task, and within one group higher priorities come first.
/// `task_le(a, b)` says that `a` may stand at or before `b`.
pub open spec fn task_le(a: TaskView, b: TaskView) -> bool {
    if a.done != b.done {
        !a.done
    } else {
        a.priority >= b.priority
    }
}

/// A sequence of tasks respects the sort order.
pub open spec fn sorted_order(s: Seq<TaskView>) -> bool {
    forall|i: int, j: int| 0 <= i < j < s.len() ==> task_le(s[i], s[j])
}

/// Priorities are clamped to the closed range `[0, 10]` when a task
/// is created through `add`.
pub open spec fn clamp_priority(p: int) -> int {
    if p > 10 {
        10
    } else {
        p
    }
}

/// The task that `add(name, priority)` appends to the list.
pub open spec fn added_task(name: Seq<char>, priority: int) -> TaskView {
    TaskView { name: name, priority: clamp_priority(priority), done: false }
}

/// The position at which a stable insertion puts `v` into `s`: after
/// every element that may stand at or before `v`.
pub open spec fn insert_pos(s: Seq<TaskView>, v: TaskView) -> int
    decreases s.len(),
{
    if s.len() == 0 {
        0
    } else if task_le(s[0], v) {
        1 + insert_pos(s.subrange(1, s.len() as int), v)
    } else {
        0
    }
}

/// `insert_pos` is the first position whose element may not stand at
/// or before `v`.
pub proof fn lemma_insert_pos_first(s: Seq<TaskView>, v: TaskView)
    ensures
        0 <= insert_pos(s, v) <= s.len(),
        forall|k: int| 0 <= k < insert_pos(s, v) ==> task_le(#[trigger] s[k], v),
        insert_pos(s, v) < s.len() ==> !task_le(s[insert_pos(s, v)], v),
    decreases s.len(),
{
    if s.len() == 0 {
    } else if task_le(s[0], v) {
        let rest = s.subrange(1, s.len() as int);
        lemma_insert_pos_first(rest, v);
        assert forall|k: int| 0 <= k < insert_pos(s, v) implies task_le(#[trigger] s[k], v) by {
            if k > 0 {
                assert(rest[k - 1] == s[k]);
            }
        }
        if insert_pos(s, v) < s.len() {
            assert(rest[insert_pos(rest, v)] == s[insert_pos(s, v)]);
        }
    }
}

/// Inserting at `insert_pos` keeps the sort order.
pub proof fn lemma_sorted_insert(s: Seq<TaskView>, v: TaskView)
    requires
        sorted_order(s),
    ensures
        sorted_order(s.insert(insert_pos(s, v), v)),
{
    lemma_insert_pos_first(s, v);
    let p = insert_pos(s, v);
    let t = s.insert(p, v);
    assert forall|i: int, j: int| 0 <= i < j < t.len() implies task_le(t[i], t[j]) by {
        assert(forall|k: int| 0 <= k < p ==> t[k] == s[k]);
        assert(t[p] == v);
        assert(forall|k: int| p < k < t.len() ==> t[k] == s[k - 1]);
        if i < p && j == p {
            assert(task_le(s[i], v));
        } else if i == p && j > p {
            // v goes strictly before s[p], which goes at or before s[j - 1]
            if p < s.len() {
                assert(!task_le(s[p], v));
                if j - 1 > p {
                    assert(task_le(s[p], s[j - 1]));
                }
            }
        }
    }
}

/// Law: a list that respects the sort order is partitioned into its
/// not-done tasks followed by its done tasks, and within each of the
/// two groups priorities never increase.  Every mutating operation of
/// `Todo` ensures `sorted_order` of the new list, so this holds after
/// each of them.
pub proof fn lemma_sorted_partition(s: Seq<TaskView>)
    requires
        sorted_order(s),
    ensures
        forall|i: int, j: int|
            #![trigger s[i], s[j]]
            0 <= i < j < s.len() && s[i].done ==> s[j].done,
        forall|i: int, j: int|
            #![trigger s[i], s[j]]
            0 <= i < j < s.len() && s[i].done == s[j].done ==> s[i].priority >= s[j].priority,
{
    assert forall|i: int, j: int| #![trigger s[i], s[j]] 0 <= i < j < s.len() implies (s[i].done
        ==> s[j].done) && (s[i].done == s[j].done ==> s[i].priority >= s[j].priority) by {
        assert(task_le(s[i], s[j]));
    }
}

/// Removing an element keeps the sort order.
pub proof fn lemma_sorted_remove(s: Seq<TaskView>, i: int)
    requires
        sorted_order(s),
        0 <= i < s.len(),
    ensures
        sorted_order(s.remove(i)),
{
    s.remove_ensures(i);
    let r = s.remove(i);
    assert forall|a: int, b: int| 0 <= a < b < r.len() implies task_le(r[a], r[b]) by {
        let a2 = if a < i { a } else { a + 1 };
        let b2 = if b < i { b } else { b + 1 };
        assert(r[a] == s[a2]);
        assert(r[b] == s[b2]);
        assert(task_le(s[a2], s[b2]));
    }
}

/// The result of `rename(i, name)` on a list in range: only the name
/// at `i` changes, which does not affect the order.
pub open spec fn rename_spec(s: Seq<TaskView>, i: int, name: Seq<char>) -> Seq<TaskView> {
    s.update(i, TaskView { name: name, ..s[i] })
}

/// The result of `toggle_done` on an index in range: the flipped task
/// is re-placed at its stable insertion position.
pub open spec fn toggle_done_spec(s: Seq<TaskView>, i: int) -> Seq<TaskView> {
    let t = TaskView { done: !s[i].done, ..s[i] };
    let r = s.remove(i);
    r.insert(insert_pos(r, t), t)
}

/// The result of `set_priority` on an index in range: the task with
/// its new priority is re-placed at its stable insertion position.
pub open spec fn set_priority_spec(s: Seq<TaskView>, i: int, p: int) -> Seq<TaskView> {
    let t = TaskView { priority: p, ..s[i] };
    let r = s.remove(i);
    r.insert(insert_pos(r, t), t)
}

/// Membership of a position in a sequence of requested indices.
pub open spec fn contains_index(ps: Seq<usize>, i: int) -> bool {
    exists|k: int| 0 <= k < ps.len() && ps[k] as int == i
}

/// Whether `i` occurs in `ps`.
fn contains_exec(ps: &Vec<usize>, i: usize) -> (b: bool)
    ensures
        b == contains_index(ps@, i as int),
{
    let mut k: usize = 0;
    let mut hit = false;
    while k < ps.len()
        invariant
            0 <= k <= ps@.len(),
            hit == exists|j: int| 0 <= j < k && ps@[j] as int == i as int,
        decreases ps@.len() - k,
    {
        if ps[k] == i {
            hit = true;
            proof {
                assert(ps@[k as int] as int == i as int);
            }
        }
        k = k + 1;
    }
    hit
}

/// The tasks of `s` from position `i` on whose positions are not
/// requested in `ps`, in their original order.
pub open spec fn kept_tasks(s: Seq<TaskView>, ps: Seq<usize>, i: int) -> Seq<TaskView>
    decreases s.len() - i,
{
    if i < 0 || i >= s.len() {
        Seq::empty()
    } else if contains_index(ps, i) {
        kept_tasks(s, ps, i + 1)
    } else {
        seq![s[i]] + kept_tasks(s, ps, i + 1)
    }
}

/// Every kept task is a task of the suffix, and the kept tasks keep
/// the sort order.
pub proof fn lemma_kept_sorted(s: Seq<TaskView>, ps: Seq<usize>, i: int)
    requires
        sorted_order(s),
    ensures
        sorted_order(kept_tasks(s, ps, i)),
        forall|a: int|
            0 <= a < kept_tasks(s, ps, i).len() ==> exists|j: int|
                i <= j < s.len() && s[j] == #[trigger] kept_tasks(s, ps, i)[a],
    decreases s.len() - i,
{
    if i < 0 || i >= s.len() {
    } else {
        lemma_kept_sorted(s, ps, i + 1);
        let kept = kept_tasks(s, ps, i);
        let rest = kept_tasks(s, ps, i + 1);
        if !contains_index(ps, i) {
            assert forall|a: int, b: int| 0 <= a < b < kept.len() implies task_le(
                kept[a],
                kept[b],
            ) by {
                if a == 0 {
                    let j = choose|j: int| i + 1 <= j < s.len() && s[j] == rest[b - 1];
                    assert(task_le(s[i], s[j]));
                } else {
                    assert(task_le(rest[a - 1], rest[b - 1]));
                }
            }
        }
    }
}

/// Removing a single requested position keeps exactly the tasks
/// around it.
pub proof fn lemma_kept_tasks_single(s: Seq<TaskView>, i: usize, j: int)
    requires
        0 <= j <= s.len(),
    ensures
        j <= i as int && (i as int) < s.len() ==> kept_tasks(s, seq![i], j) =~= s.subrange(
            j,
            i as int,
        ) + s.subrange(i as int + 1, s.len() as int),
        !(j <= i as int && (i as int) < s.len()) ==> kept_tasks(s, seq![i], j) =~= s.subrange(
            j,
            s.len() as int,
        ),
    decreases s.len() - j,
{
    if j >= s.len() {
    } else {
        lemma_kept_tasks_single(s, i, j + 1);
        if contains_index(seq![i], j) {
            assert(i as int == j);
        } else {
            assert(!(i as int == j)) by {
                if i as int == j {
                    assert(seq![i][0] as int == j);
                }
            }
        }
    }
}

/// Inserting anywhere adds exactly one occurrence to the multiset of
/// a sequence.
pub proof fn lemma_insert_to_multiset(s: Seq<TaskView>, p: int, v: TaskView)
    requires
        0 <= p <= s.len(),
    ensures
        s.insert(p, v).to_multiset() =~= s.to_multiset().insert(v),
{
    broadcast use vstd::seq_lib::group_to_multiset_ensures;

    let l = s.subrange(0, p);
    let r = s.subrange(p, s.len() as int);
    assert(s =~= l + r);
    vstd::seq_lib::lemma_multiset_commutative(l.push(v), r);
    vstd::seq_lib::lemma_multiset_commutative(l, r);
    assert(l.push(v).to_multiset() =~= l.to_multiset().insert(v));
}

/// Re-placing the task at `i` by `t2` somewhere in the sort order
/// changes the list, as a multiset, exactly as updating it in place
/// would: the other tasks are all kept.
pub proof fn lemma_replace_to_multiset(s: Seq<TaskView>, i: int, t2: TaskView)
    requires
        0 <= i < s.len(),
    ensures
        s.remove(i).insert(insert_pos(s.remove(i), t2), t2).to_multiset() =~= s.update(
            i,
            t2,
        ).to_multiset(),
{
    broadcast use vstd::seq_lib::group_to_multiset_ensures;

    let rest = s.remove(i);
    lemma_insert_pos_first(rest, t2);
    lemma_insert_to_multiset(rest, insert_pos(rest, t2), t2);
    assert(s.update(i, t2) =~= rest.insert(i, t2));
    lemma_insert_to_multiset(rest, i, t2);
}

/// How a task is to be shown: struck through once done, otherwise
/// plain for priorities up to 2, highlighted up to 6, and strongly
/// highlighted above that.
#[derive(Clone, Copy, Debug, PartialEq, Eq, Structural)]
pub enum TaskStyle {
    Plain,
    Highlighted,
    Strong,
    Struck,
}

impl Task {
    /// The style a task is shown in, decided by its state and
    /// priority band.
    pub fn display_style(&self) -> (r: TaskStyle)
        ensures
            self@.done ==> r == TaskStyle::Struck,
            !self@.done && self@.priority <= 2 ==> r == TaskStyle::Plain,
            !self@.done && 3 <= self@.priority <= 6 ==> r == TaskStyle::Highlighted,
            !self@.done && self@.priority > 6 ==> r == TaskStyle::Strong,
    {
        if self.done {
            TaskStyle::Struck
        } else if self.priority <= 2 {
            TaskStyle::Plain
        } else if self.priority <= 6 {
            TaskStyle::Highlighted
        } else {
            TaskStyle::Strong
        }
    }

    /// Creates a task with the given name and priority, not yet done.
    pub fn new(name: &String, priority: u8) -> (t: Self)
        ensures
            t@ == (TaskView { name: name@, priority: priority as int, done: false }),
    {
        Self { name: name.clone(), priority: priority, done: false }
    }
}

/// The ordered task list.  The sort order is an invariant of every
/// mutating operation, stated as `wf`.
#[derive(Debug)]
pub struct Todo {
    pub list: Vec<Task>,
}

/// The mathematical values of a sequence of tasks, position by
/// position.
pub open spec fn task_views(v: Seq<Task>) -> Seq<TaskView> {
    Seq::new(v.len(), |i: int| v[i]@)
}

impl View for Todo {
    type V = Seq<TaskView>;

    open spec fn view(&self) -> Seq<TaskView> {
        task_views(self.list@)
    }
}

/// Outcomes of moving the list to or from its stored form: the store
/// could not be reached, or what it held could not be decoded.
#[derive(Debug, PartialEq, Eq, Structural, Clone, Copy)]
pub enum TodoFileError {
    IoError,
    SerializationError,
}

impl Todo {
    /// The list respects the sort order.
    pub open spec fn wf(&self) -> bool {
        sorted_order(self@)
    }

    /// Creates an empty list.
    pub fn new() -> (t: Self)
        ensures
            t@ == Seq::<TaskView>::empty(),
            t.wf(),
    {
        Todo { list: Vec::new() }
    }

    /// Read-only access to the underlying tasks.
    pub fn items(&self) -> (r: &Vec<Task>)
        ensures
            r@.len() == self@.len(),
            forall|i: int| 0 <= i < self@.len() ==> r@[i]@ == self@[i],
    {
        &self.list
    }

    /// The task at `i`; the caller must check the length first.
    pub fn task(&self, i: usize) -> (t: &Task)
        requires
            i < self@.len(),
        ensures
            t@ == self@[i as int],
    {
        &self.list[i]
    }

    /// The number of tasks.
    pub fn len(&self) -> (n: usize)
        ensures
            n == self@.len(),
    {
        self.list.len()
    }

    /// Places `t` at its stable insertion position.
    fn insert_sorted(&mut self, t: Task) -> (idx: usize)
        requires
            old(self).wf(),
            old(self)@.len() < usize::MAX,
        ensures
            final(self).wf(),
            idx as int == insert_pos(old(self)@, t@),
            final(self)@ == old(self)@.insert(idx as int, t@),
    {
        proof {
            lemma_insert_pos_first(self@, t@);
        }
        let ghost pre = self@;
        let mut idx: usize = 0;
        while idx < self.list.len()
            invariant
                *self == *old(self),
                0 <= idx <= self@.len(),
                forall|k: int| 0 <= k < idx ==> task_le(#[trigger] self@[k], t@),
            ensures
                *self == *old(self),
                0 <= idx <= self@.len(),
                forall|k: int| 0 <= k < idx ==> task_le(#[trigger] self@[k], t@),
                idx == self@.len() || !task_le(self@[idx as int], t@),
            decreases self@.len() - idx,
        {
            let cur = &self.list[idx];
            let le = if cur.done != t.done {
                !cur.done
            } else {
                cur.priority >= t.priority
            };
            if !le {
                break;
            }
            idx = idx + 1;
        }
        proof {
            // idx and insert_pos are both the first position that does
            // not come at or before t, so they agree
            let p = insert_pos(pre, t@);
            if idx < p {
                assert(task_le(pre[idx as int], t@));
                assert(false);
            }
            if p < idx {
                assert(task_le(pre[p], t@));
                assert(false);
            }
        }
        self.list.insert(idx, t);
        proof {
            assert(self@ =~= pre.insert(idx as int, t@));
            lemma_sorted_insert(pre, t@);
        }
        idx
    }

    /// Clamps the priority to `[0, 10]`, then inserts a new not-done
    /// task with the given name at its position in the sort order,
    /// returning that position.
    pub fn add(&mut self, name: &String, priority: u8) -> (idx: usize)
        requires
            old(self).wf(),
            old(self)@.len() < usize::MAX,
        ensures
            final(self).wf(),
            idx as int == insert_pos(old(self)@, added_task(name@, priority as int)),
            final(self)@ == old(self)@.insert(idx as int, added_task(name@, priority as int)),
    {
        let p = if priority > 10 {
            10
        } else {
            priority
        };
        let t = Task::new(name, p);
        self.insert_sorted(t)
    }

    /// Replaces the name at `index`; an out-of-bounds index is a
    /// silent no-op.  Names do not affect the order.
    pub fn rename(&mut self, index: usize, name: &String)
        requires
            old(self).wf(),
        ensures
            final(self).wf(),
            index >= old(self)@.len() ==> final(self)@ == old(self)@,
            index < old(self)@.len() ==> final(self)@ == rename_spec(
                old(self)@,
                index as int,
                name@,
            ),
    {
        if index >= self.list.len() {
            return ;
        }
        let ghost pre = self@;
        let mut t = self.list.remove(index);
        t.name = name.clone();
        self.list.insert(index, t);
        proof {
            assert(self@ =~= rename_spec(pre, index as int, name@));
            assert forall|i: int, j: int| 0 <= i < j < self@.len() implies task_le(
                self@[i],
                self@[j],
            ) by {
                assert(task_le(pre[i], pre[j]));
            }
        }
    }

    /// Flips the completion flag at `index` and re-places the task in
    /// the sort order; an out-of-bounds index is a silent no-op.
    pub fn done(&mut self, index: usize)
        requires
            old(self).wf(),
        ensures
            final(self).wf(),
            index >= old(self)@.len() ==> final(self)@ == old(self)@,
            index < old(self)@.len() ==> final(self)@ == toggle_done_spec(old(self)@, index as int),
    {
        if index >= self.list.len() {
            return ;
        }
        let ghost pre = self@;
        let mut t = self.list.remove(index);
        t.done = !t.done;
        proof {
            assert(self@ =~= pre.remove(index as int));
            lemma_sorted_remove(pre, index as int);
        }
        self.insert_sorted(t);
    }

    /// Sets the priority at `index` (the caller is expected to hand a
    /// pre-clamped value) and re-places the task in the sort order;
    /// an out-of-bounds index is a silent no-op.
    pub fn set_priority(&mut self, index: usize, priority: u8)
        requires
            old(self).wf(),
        ensures
            final(self).wf(),
            index >= old(self)@.len() ==> final(self)@ == old(self)@,
            index < old(self)@.len() ==> final(self)@ == set_priority_spec(
                old(self)@,
                index as int,
                priority as int,
            ),
    {
        if index >= self.list.len() {
            return ;
        }
        let ghost pre = self@;
        let mut t = self.list.remove(index);
        t.priority = priority;
        proof {
            assert(self@ =~= pre.remove(index as int));
            lemma_sorted_remove(pre, index as int);
        }
        self.insert_sorted(t);
    }

    /// Removes the tasks at all requested indices at once.  If any
    /// requested index is out of bounds, nothing is removed and the
    /// call fails; duplicates among the indices are harmless.
    pub fn remove(&mut self, index: &Vec<usize>) -> (r: Result<(), ()>)
        requires
            old(self).wf(),
        ensures
            final(self).wf(),
            r is Ok <==> (forall|k: int|
                0 <= k < index@.len() ==> (#[trigger] index@[k]) < old(self)@.len()),
            r is Err ==> final(self)@ == old(self)@,
            r is Ok ==> final(self)@ == kept_tasks(old(self)@, index@, 0),
    {
        let mut k: usize = 0;
        while k < index.len()
            invariant
                *self == *old(self),
                self.wf(),
                0 <= k <= index@.len(),
                forall|j: int| 0 <= j < k ==> (#[trigger] index@[j]) < self@.len(),
            decreases index@.len() - k,
        {
            if index[k] >= self.list.len() {
                return Err(());
            }
            k = k + 1;
        }
        let ghost pre = self@;
        let n = self.list.len();
        let mut out: Vec<Task> = Vec::new();
        let mut i: usize = 0;
        while i < n
            invariant
                n == pre.len(),
                0 <= i <= n,
                self.list@.len() == n - i,
                forall|j: int| 0 <= j < n - i ==> (#[trigger] self.list@[j])@ == pre[j + i],
                kept_tasks(pre, index@, 0) =~= task_views(out@) + kept_tasks(pre, index@, i as int),
            decreases n - i,
        {
            let t = self.list.remove(0);
            let ghost out_pre = out@;
            let hit = contains_exec(index, i);
            if !hit {
                out.push(t);
            }
            proof {
                assert(t@ == pre[i as int]);
                if hit {
                    assert(kept_tasks(pre, index@, i as int) == kept_tasks(pre, index@, i + 1));
                } else {
                    assert(task_views(out@) =~= task_views(out_pre).push(t@));
                    assert(task_views(out_pre).push(t@) + kept_tasks(pre, index@, i + 1)
                        =~= task_views(out_pre) + kept_tasks(pre, index@, i as int));
                }
            }
            i = i + 1;
        }
        self.list = out;
        proof {
            assert(kept_tasks(pre, index@, n as int) =~= Seq::<TaskView>::empty());
            assert(self@ =~= kept_tasks(pre, index@, 0));
            lemma_kept_sorted(pre, index@, 0);
        }
        Ok(())
    }

    /// Re-sorts the whole list.  The result respects the sort order
    /// and holds exactly the tasks held before; a list already in
    /// order comes back unchanged.
    pub fn sort_list(&mut self)
        ensures
            final(self).wf(),
            final(self)@.to_multiset() == old(self)@.to_multiset(),
            old(self).wf() ==> final(self)@ == old(self)@,
    {
        let ghost pre = self@;
        let n0 = self.list.len();
        let mut acc = Todo::new();
        proof {
            broadcast use vstd::seq_lib::group_to_multiset_ensures;

            assert(acc@.to_multiset().add(self@.to_multiset()) =~= pre.to_multiset());
        }
        while self.list.len() > 0
            invariant
                acc.wf(),
                n0 == pre.len(),
                acc@.len() + self@.len() == pre.len(),
                acc@.to_multiset().add(self@.to_multiset()) =~= pre.to_multiset(),
                forall|j: int|
                    0 <= j < self@.len() ==> (#[trigger] self@[j]) == pre[j + acc@.len()],
                sorted_order(pre) ==> acc@ =~= pre.subrange(0, acc@.len() as int),
            decreases self@.len(),
        {
            let ghost list_pre = self@;
            let ghost acc_pre = acc@;
            let t = self.list.remove(0);
            proof {
                broadcast use vstd::seq_lib::group_to_multiset_ensures;

                assert(self@ =~= list_pre.remove(0));
                assert(self@.to_multiset() =~= list_pre.to_multiset().remove(t@));
            }
            let idx = acc.insert_sorted(t);
            proof {
                lemma_insert_pos_first(acc_pre, t@);
                lemma_insert_to_multiset(acc_pre, idx as int, t@);
                assert(acc@.to_multiset().add(self@.to_multiset()) =~= pre.to_multiset());
                if sorted_order(pre) {
                    // every already-placed task may stand at or before
                    // the next one, so it is appended at the end
                    assert(t@ == pre[acc_pre.len() as int]);
                    assert forall|k: int| 0 <= k < acc_pre.len() implies task_le(
                        #[trigger] acc_pre[k],
                        t@,
                    ) by {
                        assert(acc_pre[k] == pre[k]);
                        assert(task_le(pre[k], pre[acc_pre.len() as int]));
                    }
                    assert(idx == acc_pre.len());
                    assert(acc@ =~= pre.subrange(0, acc@.len() as int));
                }
            }
        }
        self.list = acc.list;
        proof {
            broadcast use vstd::seq_lib::group_to_multiset_ensures;

            assert(self@.to_multiset().add(Seq::<TaskView>::empty().to_multiset())
                =~= pre.to_multiset());
            assert(Seq::<TaskView>::empty().to_multiset() =~= Multiset::<TaskView>::empty());
            assert(self@.to_multiset() =~= pre.to_multiset());
            if sorted_order(pre) {
                assert(self@ =~= pre);
            }
        }
    }

    /// Empties the list unconditionally.
    pub fn clear(&mut self)
        ensures
            final(self)@ == Seq::<TaskView>::empty(),
            final(self).wf(),
    {
        self.list.clear();
        proof {
            assert(self@ =~= Seq::<TaskView>::empty());
        }
    }
}

} // verus!
