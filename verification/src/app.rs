//! The interaction controller: a finite-state protocol with two modes,
//! browsing and editing, that turns one key event into at most one
//! state transition and at most one task-list operation.

use vstd::prelude::*;

use crate::text::{string_pop, string_push};
use crate::todo::{
    added_task, clamp_priority, insert_pos, lemma_insert_pos_first, lemma_kept_tasks_single,
    lemma_replace_to_multiset, lemma_sorted_remove, rename_spec, set_priority_spec, sorted_order,
    toggle_done_spec, TaskView, Todo,
};
use vstd::string::StringExecFns;

verus! {

/// The keys the controller reacts to.  Anything it has no binding for
/// arrives as `Other`.
#[derive(Clone, Copy, Debug, PartialEq, Eq, Structural)]
pub enum KeyCode {
    Char(char),
    Backspace,
    Enter,
    Esc,
    Left,
    Right,
    Up,
    Down,
    Home,
    End,
    Other,
}

/// One input event: the key, and whether this is a press (releases
/// and other kinds are ignored).
#[derive(Clone, Copy, Debug, PartialEq, Eq, Structural)]
pub struct KeyEvent {
    pub code: KeyCode,
    pub pressed: bool,
}

/// What the surrounding run loop is asked to do after a step: nothing
/// more, or persist the list because the user quit.
#[derive(Clone, Copy, Debug, PartialEq, Eq, Structural)]
pub enum Effect {
    Nothing,
    Save,
}

/// The controller: the task list it owns, the quit flag, the selection
/// cursor, and the edit-mode scratch state.
#[derive(Debug)]
pub struct App {
    pub list: Todo,
    exit: bool,
    selected: Option<usize>,
    edit: bool,
    edit_name: String,
    edit_priority: u8,
}

/// The mathematical state of the controller.
pub struct AppView {
    pub tasks: Seq<TaskView>,
    pub exit: bool,
    pub selected: Option<int>,
    pub edit: bool,
    pub edit_name: Seq<char>,
    pub edit_priority: int,
}

impl View for App {
    type V = AppView;

    closed spec fn view(&self) -> AppView {
        AppView {
            tasks: self.list@,
            exit: self.exit,
            selected: match self.selected {
                Option::Some(i) => Option::Some(i as int),
                Option::None => Option::None,
            },
            edit: self.edit,
            edit_name: self.edit_name@,
            edit_priority: self.edit_priority as int,
        }
    }
}

/// The controller invariant: the list respects the sort order, the
/// selection is in bounds or none, edit mode holds a selection, and
/// the scratch priority stays in `[0, 10]`.
pub open spec fn view_wf(s: AppView) -> bool {
    &&& sorted_order(s.tasks)
    &&& match s.selected {
        Option::Some(i) => 0 <= i < s.tasks.len(),
        Option::None => true,
    }
    &&& (s.edit ==> s.selected is Some)
    &&& 0 <= s.edit_priority <= 10
}

/// The selection after moving down: the next index, clamped to the
/// last valid one; from no selection, the first task.
pub open spec fn next_selection(s: AppView) -> Option<int> {
    if s.tasks.len() == 0 {
        Option::None
    } else {
        match s.selected {
            Option::None => Option::Some(0int),
            Option::Some(i) => Option::Some(
                if i + 1 < s.tasks.len() {
                    i + 1
                } else {
                    s.tasks.len() - 1
                },
            ),
        }
    }
}

/// The selection after moving up: the previous index, stopping at the
/// first task; from no selection, the last task.
pub open spec fn prev_selection(s: AppView) -> Option<int> {
    if s.tasks.len() == 0 {
        Option::None
    } else {
        match s.selected {
            Option::None => Option::Some(s.tasks.len() - 1),
            Option::Some(i) => Option::Some(
                if i > 0 {
                    i - 1
                } else {
                    0int
                },
            ),
        }
    }
}

/// The first valid index, if any.
pub open spec fn first_selection(s: AppView) -> Option<int> {
    if s.tasks.len() == 0 {
        Option::None
    } else {
        Option::Some(0int)
    }
}

/// The last valid index, if any.
pub open spec fn last_selection(s: AppView) -> Option<int> {
    if s.tasks.len() == 0 {
        Option::None
    } else {
        Option::Some(s.tasks.len() - 1)
    }
}

/// The state with only the selection replaced.
pub open spec fn with_selection(s: AppView, sel: Option<int>) -> AppView {
    AppView { selected: sel, ..s }
}

/// The state after the "add" event: a task named "New" with priority 0
/// is inserted at its position in the sort order, that position is
/// selected, and the controller enters edit mode pre-populated with
/// the new task's fields.
pub open spec fn add_task_step(s: AppView) -> AppView {
    let t = added_task("New"@, 0);
    let p = insert_pos(s.tasks, t);
    AppView {
        tasks: s.tasks.insert(p, t),
        selected: Option::Some(p),
        edit: true,
        edit_name: "New"@,
        edit_priority: 0,
        exit: s.exit,
    }
}

/// The state after the "remove" event: without a selection nothing
/// happens; otherwise the selected task leaves the list and the
/// selection is clamped back into bounds, or cleared when the list
/// becomes empty.
pub open spec fn remove_task_step(s: AppView) -> AppView {
    match s.selected {
        Option::None => s,
        Option::Some(i) => {
            let rest = s.tasks.remove(i);
            let sel = if rest.len() == 0 {
                Option::<int>::None
            } else if i < rest.len() {
                Option::<int>::Some(i)
            } else {
                Option::<int>::Some(rest.len() - 1)
            };
            AppView { tasks: rest, selected: sel, ..s }
        },
    }
}

/// The state after the "toggle-done" event: the selected task's flag
/// flips and the task is re-placed in the sort order.  The selection
/// index is left as it is and may now point at a different task.
pub open spec fn toggle_status_step(s: AppView) -> AppView {
    match s.selected {
        Option::None => s,
        Option::Some(i) => AppView { tasks: toggle_done_spec(s.tasks, i), ..s },
    }
}

/// Entering edit mode: the scratch fields take the selected task's
/// current name and (clamped) priority.
pub open spec fn enter_edit_step(s: AppView, i: int) -> AppView {
    AppView {
        edit: true,
        edit_name: s.tasks[i].name,
        edit_priority: clamp_priority(s.tasks[i].priority),
        ..s
    }
}

/// Confirming an edit: the selected task is renamed, then given the
/// scratch priority (in that order), and edit mode ends.
pub open spec fn confirm_edit_step(s: AppView, i: int) -> AppView {
    AppView {
        edit: false,
        tasks: set_priority_spec(rename_spec(s.tasks, i, s.edit_name), i, s.edit_priority),
        ..s
    }
}

/// The edit-mode toggle: a no-op without a selection; cancel always
/// just leaves edit mode; otherwise edit mode is entered or confirmed.
pub open spec fn toggle_edit_step(s: AppView, cancel: bool) -> AppView {
    match s.selected {
        Option::None => s,
        Option::Some(i) => if cancel {
            AppView { edit: false, ..s }
        } else if !s.edit {
            enter_edit_step(s, i)
        } else {
            confirm_edit_step(s, i)
        },
    }
}

/// A character typed while editing is appended to the scratch name.
pub open spec fn add_text_step(s: AppView, c: char) -> AppView {
    AppView { edit_name: s.edit_name.push(c), ..s }
}

/// Backspace while editing removes the last scratch character, if any.
pub open spec fn erase_text_step(s: AppView) -> AppView {
    AppView {
        edit_name: if s.edit_name.len() > 0 {
            s.edit_name.drop_last()
        } else {
            s.edit_name
        },
        ..s
    }
}

/// The scratch priority moves one step, clamped to `[0, 10]`; at the
/// bounds the event is a no-op.
pub open spec fn change_priority_step(s: AppView, increment: bool) -> AppView {
    let p = if increment {
        if s.edit_priority >= 10 {
            s.edit_priority
        } else {
            s.edit_priority + 1
        }
    } else {
        if s.edit_priority <= 0 {
            s.edit_priority
        } else {
            s.edit_priority - 1
        }
    };
    AppView { edit_priority: p, ..s }
}

/// Quitting: the exit flag is raised; the caller is asked to persist.
pub open spec fn quit_step(s: AppView) -> AppView {
    AppView { exit: true, ..s }
}

/// The transition function of the controller: what one key event does
/// to the state, and what it asks of the surrounding run loop.
pub open spec fn step(s: AppView, key: KeyEvent) -> (AppView, Effect) {
    if !key.pressed {
        (s, Effect::Nothing)
    } else if s.edit {
        match key.code {
            KeyCode::Char(c) => if c == '+' {
                (change_priority_step(s, true), Effect::Nothing)
            } else if c == '-' {
                (change_priority_step(s, false), Effect::Nothing)
            } else {
                (add_text_step(s, c), Effect::Nothing)
            },
            KeyCode::Backspace => (erase_text_step(s), Effect::Nothing),
            KeyCode::Enter => (toggle_edit_step(s, false), Effect::Nothing),
            KeyCode::Esc => (toggle_edit_step(s, true), Effect::Nothing),
            _ => (s, Effect::Nothing),
        }
    } else {
        match key.code {
            KeyCode::Char(c) => if c == 'q' {
                (quit_step(s), Effect::Save)
            } else if c == 'h' {
                (with_selection(s, Option::None), Effect::Nothing)
            } else if c == 'j' {
                (with_selection(s, next_selection(s)), Effect::Nothing)
            } else if c == 'k' {
                (with_selection(s, prev_selection(s)), Effect::Nothing)
            } else if c == 'g' {
                (with_selection(s, first_selection(s)), Effect::Nothing)
            } else if c == 'G' {
                (with_selection(s, last_selection(s)), Effect::Nothing)
            } else if c == 'a' {
                (add_task_step(s), Effect::Nothing)
            } else if c == 'r' {
                (remove_task_step(s), Effect::Nothing)
            } else if c == 'l' {
                (toggle_status_step(s), Effect::Nothing)
            } else {
                (s, Effect::Nothing)
            },
            KeyCode::Esc => (quit_step(s), Effect::Save),
            KeyCode::Left => (with_selection(s, Option::None), Effect::Nothing),
            KeyCode::Down => (with_selection(s, next_selection(s)), Effect::Nothing),
            KeyCode::Up => (with_selection(s, prev_selection(s)), Effect::Nothing),
            KeyCode::Home => (with_selection(s, first_selection(s)), Effect::Nothing),
            KeyCode::End => (with_selection(s, last_selection(s)), Effect::Nothing),
            KeyCode::Enter => (toggle_edit_step(s, false), Effect::Nothing),
            KeyCode::Right => (toggle_status_step(s), Effect::Nothing),
            _ => (s, Effect::Nothing),
        }
    }
}

/// Law: while editing, changing the scratch fields and cancelling
/// never touch the tasks; after a cancel the selection is unchanged
/// and edit mode is off.
pub proof fn lemma_edit_cancel_keeps_tasks(s: AppView, c: char, increment: bool)
    requires
        view_wf(s),
        s.edit,
    ensures
        add_text_step(s, c).tasks == s.tasks,
        erase_text_step(s).tasks == s.tasks,
        change_priority_step(s, increment).tasks == s.tasks,
        toggle_edit_step(s, true).tasks == s.tasks,
        toggle_edit_step(s, true).selected == s.selected,
        !toggle_edit_step(s, true).edit,
{
}

/// Law: confirming an edit commits exactly the scratch fields: the
/// list keeps its length, the edited task reappears somewhere in it
/// with the scratch name and priority and its old done flag, every
/// other task is kept (the list changes, as a multiset, exactly as an
/// in-place update would), and edit mode ends.
pub proof fn lemma_edit_confirm_commits(s: AppView, i: int)
    requires
        view_wf(s),
        s.edit,
        s.selected == Option::<int>::Some(i),
    ensures
        !toggle_edit_step(s, false).edit,
        toggle_edit_step(s, false).tasks.len() == s.tasks.len(),
        exists|j: int|
            0 <= j < toggle_edit_step(s, false).tasks.len() && toggle_edit_step(s, false).tasks[j]
                == (TaskView { name: s.edit_name, priority: s.edit_priority, done: s.tasks[i].done }),
        toggle_edit_step(s, false).tasks.to_multiset() == s.tasks.update(
            i,
            (TaskView { name: s.edit_name, priority: s.edit_priority, done: s.tasks[i].done }),
        ).to_multiset(),
{
    let renamed = rename_spec(s.tasks, i, s.edit_name);
    let t2 = TaskView { priority: s.edit_priority, ..renamed[i] };
    let rest = renamed.remove(i);
    let p = insert_pos(rest, t2);
    lemma_insert_pos_first(rest, t2);
    rest.insert_ensures(p, t2);
    assert(toggle_edit_step(s, false).tasks[p] == t2);
    assert(t2 == (TaskView { name: s.edit_name, priority: s.edit_priority, done: s.tasks[i].done }));
    lemma_replace_to_multiset(renamed, i, t2);
    assert(renamed.update(i, t2) =~= s.tasks.update(i, t2));
}

/// Law: on an empty list, the "add" event leaves exactly one task,
/// named "New" with priority 0 and not done, with that task selected
/// and the controller editing it.
pub proof fn lemma_add_on_empty(s: AppView)
    requires
        s.tasks.len() == 0,
    ensures
        add_task_step(s).tasks.len() == 1,
        add_task_step(s).tasks[0].name == "New"@,
        add_task_step(s).tasks[0].priority == 0,
        !add_task_step(s).tasks[0].done,
        add_task_step(s).selected == Option::<int>::Some(0int),
        add_task_step(s).edit,
        add_task_step(s).edit_name == "New"@,
        add_task_step(s).edit_priority == 0,
{
    let t = added_task("New"@, 0);
    assert(insert_pos(s.tasks, t) == 0);
    assert(s.tasks.insert(0, t) =~= seq![t]);
}

/// Law: removing the selected task of a one-task list empties the
/// list and clears the selection.
pub proof fn lemma_remove_last_clears_selection(s: AppView, i: int)
    requires
        view_wf(s),
        s.tasks.len() == 1,
        s.selected == Option::<int>::Some(i),
    ensures
        remove_task_step(s).tasks.len() == 0,
        remove_task_step(s).selected is None,
{
    s.tasks.remove_ensures(i);
}

impl App {
    /// The controller invariant, on the concrete state.
    pub open spec fn wf(&self) -> bool {
        view_wf(self@)
    }

    /// A fresh controller over the given list: browsing, nothing
    /// selected.
    pub fn new(todo: Todo) -> (app: Self)
        requires
            todo.wf(),
        ensures
            app.wf(),
            app@ == (AppView {
                tasks: todo@,
                exit: false,
                selected: Option::None,
                edit: false,
                edit_name: Seq::<char>::empty(),
                edit_priority: 0,
            }),
    {
        App {
            list: todo,
            exit: false,
            selected: Option::None,
            edit: false,
            edit_name: String::new(),
            edit_priority: 0,
        }
    }

    /// Read-only access to the task list.
    pub fn get_list(&self) -> (r: &Todo)
        ensures
            r@ == self@.tasks,
    {
        &self.list
    }

    /// The current selection.
    pub fn get_selected(&self) -> (r: Option<usize>)
        ensures
            match r {
                Option::Some(i) => self@.selected == Option::<int>::Some(i as int),
                Option::None => self@.selected is None,
            },
    {
        self.selected
    }

    /// Whether the controller is in edit mode.
    pub fn is_edit_mode(&self) -> (r: bool)
        ensures
            r == self@.edit,
    {
        self.edit
    }

    /// The scratch name, meaningful only while editing.
    pub fn get_edit_name(&self) -> (r: &String)
        ensures
            r@ == self@.edit_name,
    {
        &self.edit_name
    }

    /// The scratch priority, meaningful only while editing.
    pub fn get_edit_priority(&self) -> (r: u8)
        ensures
            r as int == self@.edit_priority,
    {
        self.edit_priority
    }

    /// Whether the run loop should end.
    pub fn is_exit(&self) -> (r: bool)
        ensures
            r == self@.exit,
    {
        self.exit
    }

    /// Clears the selection (a browsing-mode event).
    pub fn select_none(&mut self)
        requires
            old(self).wf(),
            !old(self)@.edit,
        ensures
            final(self).wf(),
            final(self)@ == with_selection(old(self)@, Option::None),
    {
        self.selected = Option::None;
    }

    /// Moves the selection down, clamping at the last task.
    pub fn select_next(&mut self)
        requires
            old(self).wf(),
        ensures
            final(self).wf(),
            final(self)@ == with_selection(old(self)@, next_selection(old(self)@)),
    {
        let len = self.list.len();
        if len == 0 {
            self.selected = Option::None;
            return ;
        }
        let next = match self.selected {
            Option::None => 0,
            Option::Some(i) => if i + 1 < len {
                i + 1
            } else {
                len - 1
            },
        };
        self.selected = Option::Some(next);
    }

    /// Moves the selection up, stopping at the first task.
    pub fn select_previous(&mut self)
        requires
            old(self).wf(),
        ensures
            final(self).wf(),
            final(self)@ == with_selection(old(self)@, prev_selection(old(self)@)),
    {
        let len = self.list.len();
        if len == 0 {
            self.selected = Option::None;
            return ;
        }
        let prev = match self.selected {
            Option::None => len - 1,
            Option::Some(i) => if i > 0 {
                i - 1
            } else {
                0
            },
        };
        self.selected = Option::Some(prev);
    }

    /// Selects the first task, if there is one.
    pub fn select_first(&mut self)
        requires
            old(self).wf(),
        ensures
            final(self).wf(),
            final(self)@ == with_selection(old(self)@, first_selection(old(self)@)),
    {
        let len = self.list.len();
        if len == 0 {
            self.selected = Option::None;
        } else {
            self.selected = Option::Some(0);
        }
    }

    /// Selects the last task, if there is one.
    pub fn select_last(&mut self)
        requires
            old(self).wf(),
        ensures
            final(self).wf(),
            final(self)@ == with_selection(old(self)@, last_selection(old(self)@)),
    {
        let len = self.list.len();
        if len == 0 {
            self.selected = Option::None;
        } else {
            self.selected = Option::Some(len - 1);
        }
    }

    /// The "add" event: adds a task named "New" with priority 0,
    /// selects it where the sort order put it, and enters edit mode
    /// on it.
    pub fn add_task(&mut self)
        requires
            old(self).wf(),
            old(self)@.tasks.len() < usize::MAX,
        ensures
            final(self).wf(),
            final(self)@ == add_task_step(old(self)@),
    {
        let name = String::from_str("New");
        let idx = self.list.add(&name, 0);
        self.selected = Option::Some(idx);
        self.edit = true;
        self.edit_name = name;
        self.edit_priority = 0;
        proof {
            lemma_insert_pos_first(old(self)@.tasks, added_task("New"@, 0));
        }
    }

    /// The "remove" event: removes the selected task, if any, and
    /// keeps the selection in bounds, clearing it when the list
    /// becomes empty.
    pub fn remove_task(&mut self)
        requires
            old(self).wf(),
            !old(self)@.edit,
        ensures
            final(self).wf(),
            final(self)@ == remove_task_step(old(self)@),
    {
        let i = match self.selected {
            Option::Some(i) => i,
            Option::None => {
                return ;
            },
        };
        let mut idxs: Vec<usize> = Vec::new();
        idxs.push(i);
        let r = self.list.remove(&idxs);
        proof {
            assert(idxs@ =~= seq![i]);
            assert(r is Ok);
            lemma_kept_tasks_single(old(self)@.tasks, i, 0);
            assert(self.list@ =~= old(self)@.tasks.remove(i as int));
            lemma_sorted_remove(old(self)@.tasks, i as int);
        }
        let len = self.list.len();
        if len == 0 {
            self.selected = Option::None;
        } else if i >= len {
            self.selected = Option::Some(len - 1);
        }
    }

    /// The "toggle-done" event: flips the selected task's flag; the
    /// selection index itself is not re-tracked.
    pub fn toggle_status(&mut self)
        requires
            old(self).wf(),
        ensures
            final(self).wf(),
            final(self)@ == toggle_status_step(old(self)@),
    {
        let i = match self.selected {
            Option::Some(i) => i,
            Option::None => {
                return ;
            },
        };
        self.list.done(i);
        proof {
            let pre = old(self)@.tasks;
            let t = TaskView { done: !pre[i as int].done, ..pre[i as int] };
            lemma_insert_pos_first(pre.remove(i as int), t);
        }
    }

    /// The edit-mode toggle: with no selection a no-op; cancelling
    /// leaves edit mode without touching the list; otherwise edit mode
    /// is entered with the selected task's fields, or the scratch
    /// fields are committed (rename, then priority) and edit mode ends.
    pub fn toggle_edit_mode(&mut self, cancel: bool)
        requires
            old(self).wf(),
        ensures
            final(self).wf(),
            final(self)@ == toggle_edit_step(old(self)@, cancel),
    {
        let i = match self.selected {
            Option::Some(i) => i,
            Option::None => {
                return ;
            },
        };
        if cancel {
            self.edit = false;
            return ;
        }
        if !self.edit {
            self.edit = true;
            let nm = self.list.task(i).name.clone();
            let pr = self.list.task(i).priority;
            self.edit_name = nm;
            self.edit_priority = if pr > 10 {
                10
            } else {
                pr
            };
        } else {
            self.edit = false;
            let nm = self.edit_name.clone();
            self.list.rename(i, &nm);
            let pr = self.edit_priority;
            self.list.set_priority(i, pr);
            proof {
                let renamed = rename_spec(old(self)@.tasks, i as int, old(self)@.edit_name);
                let t = TaskView { priority: old(self)@.edit_priority, ..renamed[i as int] };
                lemma_insert_pos_first(renamed.remove(i as int), t);
            }
        }
    }

    /// A typed character is appended to the scratch name.
    pub fn add_text(&mut self, text: char)
        requires
            old(self).wf(),
        ensures
            final(self).wf(),
            final(self)@ == add_text_step(old(self)@, text),
    {
        string_push(&mut self.edit_name, text);
    }

    /// Backspace: the last scratch character is removed, if any.
    pub fn erase_text(&mut self)
        requires
            old(self).wf(),
        ensures
            final(self).wf(),
            final(self)@ == erase_text_step(old(self)@),
    {
        string_pop(&mut self.edit_name);
    }

    /// The scratch priority moves one step, clamped to `[0, 10]`.
    pub fn change_priority(&mut self, increment: bool)
        requires
            old(self).wf(),
        ensures
            final(self).wf(),
            final(self)@ == change_priority_step(old(self)@, increment),
    {
        if increment {
            if self.edit_priority == 10 {
                return ;
            }
            self.edit_priority = self.edit_priority + 1;
        } else {
            if self.edit_priority == 0 {
                return ;
            }
            self.edit_priority = self.edit_priority - 1;
        }
    }

    /// Dispatches one key event according to the current mode and
    /// returns what the run loop should do next.
    pub fn handle_key(&mut self, key: KeyEvent) -> (e: Effect)
        requires
            old(self).wf(),
            old(self)@.tasks.len() < usize::MAX,
        ensures
            final(self).wf(),
            final(self)@ == step(old(self)@, key).0,
            e == step(old(self)@, key).1,
    {
        if !key.pressed {
            return Effect::Nothing;
        }
        if self.edit {
            match key.code {
                KeyCode::Char(c) => {
                    if c == '+' {
                        self.change_priority(true);
                    } else if c == '-' {
                        self.change_priority(false);
                    } else {
                        self.add_text(c);
                    }
                },
                KeyCode::Backspace => self.erase_text(),
                KeyCode::Enter => self.toggle_edit_mode(false),
                KeyCode::Esc => self.toggle_edit_mode(true),
                _ => {},
            }
            return Effect::Nothing;
        }
        match key.code {
            KeyCode::Char(c) => {
                if c == 'q' {
                    self.exit = true;
                    return Effect::Save;
                } else if c == 'h' {
                    self.select_none();
                } else if c == 'j' {
                    self.select_next();
                } else if c == 'k' {
                    self.select_previous();
                } else if c == 'g' {
                    self.select_first();
                } else if c == 'G' {
                    self.select_last();
                } else if c == 'a' {
                    self.add_task();
                } else if c == 'r' {
                    self.remove_task();
                } else if c == 'l' {
                    self.toggle_status();
                }
            },
            KeyCode::Esc => {
                self.exit = true;
                return Effect::Save;
            },
            KeyCode::Left => self.select_none(),
            KeyCode::Down => self.select_next(),
            KeyCode::Up => self.select_previous(),
            KeyCode::Home => self.select_first(),
            KeyCode::End => self.select_last(),
            KeyCode::Enter => self.toggle_edit_mode(false),
            KeyCode::Right => self.toggle_status(),
            _ => {},
        }
        Effect::Nothing
    }
}

} // verus!
