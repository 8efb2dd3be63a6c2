//! The bookkeeping core of a console task list: priorities with a display
//! rank, timestamped tasks, and a manager that finds, edits, removes and
//! orders tasks by name and rank. Reading the console, printing and the
//! JSON persistence live outside the library; everything here is plain
//! decision logic over the task sequence.

use crate::text::str_eq;
use vstd::prelude::*;

verus! {

/// Importance of a task.
#[derive(Clone, Copy, PartialEq, Eq, Structural, Debug)]
pub enum Priority {
    Low,
    Medium,
    High,
}

/// The Russian display label of a priority.
pub open spec fn spec_priority_label(p: Priority) -> Seq<char> {
    match p {
        Priority::Low => "Низкий"@,
        Priority::Medium => "Средний"@,
        Priority::High => "Высокий"@,
    }
}

impl Priority {
    /// Display rank of the priority: high priorities rank first.
    pub open spec fn spec_order(self) -> u32 {
        match self {
            Priority::Low => 2,
            Priority::Medium => 1,
            Priority::High => 0,
        }
    }

    /// The display label of the priority.
    pub fn to_string(&self) -> (r: String)
        ensures
            r@ == spec_priority_label(*self),
    {
        match self {
            Priority::Low => "Низкий".to_owned(),
            Priority::Medium => "Средний".to_owned(),
            Priority::High => "Высокий".to_owned(),
        }
    }

    /// Display rank of the priority, high priorities first.
    pub fn order(&self) -> (r: u32)
        ensures
            r == self.spec_order(),
    {
        match self {
            Priority::Low => 2,
            Priority::Medium => 1,
            Priority::High => 0,
        }
    }
}

/// The priority selected by a console index: `1` is high, `2` is medium,
/// `3` is low, and anything else selects nothing.
pub open spec fn spec_priority_from_index(s: Seq<char>) -> Option<Priority> {
    if s == "1"@ {
        Some(Priority::High)
    } else if s == "2"@ {
        Some(Priority::Medium)
    } else if s == "3"@ {
        Some(Priority::Low)
    } else {
        None
    }
}

/// Maps a console priority index to the priority it selects.
pub fn priority_from_index(code: &str) -> (r: Option<Priority>)
    ensures
        r == spec_priority_from_index(code@),
{
    if str_eq(code, "1") {
        Some(Priority::High)
    } else if str_eq(code, "2") {
        Some(Priority::Medium)
    } else if str_eq(code, "3") {
        Some(Priority::Low)
    } else {
        None
    }
}

/// The console's command menu. Each variant is selected by its one-based
/// index; anything else is `Invalid`.
#[derive(Clone, Copy, PartialEq, Eq, Structural, Debug)]
pub enum Command {
    AddTask,
    FindTask,
    EditTask,
    RemoveTask,
    PrintTasks,
    StoreToFile,
    ReadFromFile,
    MarkCompleted,
    Invalid,
}

/// The command selected by a console input.
pub open spec fn spec_parse_command(s: Seq<char>) -> Command {
    if s == "1"@ {
        Command::AddTask
    } else if s == "2"@ {
        Command::FindTask
    } else if s == "3"@ {
        Command::EditTask
    } else if s == "4"@ {
        Command::RemoveTask
    } else if s == "5"@ {
        Command::PrintTasks
    } else if s == "6"@ {
        Command::StoreToFile
    } else if s == "7"@ {
        Command::ReadFromFile
    } else if s == "8"@ {
        Command::MarkCompleted
    } else {
        Command::Invalid
    }
}

/// Maps a console input to the command it selects.
pub fn parse_command(input: &str) -> (c: Command)
    ensures
        c == spec_parse_command(input@),
{
    if str_eq(input, "1") {
        Command::AddTask
    } else if str_eq(input, "2") {
        Command::FindTask
    } else if str_eq(input, "3") {
        Command::EditTask
    } else if str_eq(input, "4") {
        Command::RemoveTask
    } else if str_eq(input, "5") {
        Command::PrintTasks
    } else if str_eq(input, "6") {
        Command::StoreToFile
    } else if str_eq(input, "7") {
        Command::ReadFromFile
    } else if str_eq(input, "8") {
        Command::MarkCompleted
    } else {
        Command::Invalid
    }
}

/// The completion label of a task's state.
pub open spec fn spec_status_label(completed: bool) -> Seq<char> {
    if completed {
        "Выполнено"@
    } else {
        "Не выполнено"@
    }
}

/// The display label of a completion state.
pub fn status_label(completed: bool) -> (r: String)
    ensures
        r@ == spec_status_label(completed),
{
    if completed {
        "Выполнено".to_owned()
    } else {
        "Не выполнено".to_owned()
    }
}

/// One task: a name, a description, a priority, its creation time as
/// milliseconds since the Unix epoch, and whether it is done.
pub struct Task {
    pub name: String,
    pub description: String,
    pub priority: Priority,
    pub add_time: i64,
    pub completed: bool,
}

/// Relies on chrono's `Local::now` and `DateTime::timestamp_millis`: the
/// current moment as milliseconds since the Unix epoch. Nothing is
/// promised of the clock's reading.
#[verifier::external_body]
fn now_timestamp_millis() -> i64 {
    chrono::Local::now().timestamp_millis()
}

impl Task {
    /// A fresh, uncompleted task stamped with the given creation time.
    pub fn new_at(name: String, description: String, priority: Priority, add_time: i64) -> (t:
        Task)
        ensures
            t.name == name,
            t.description == description,
            t.priority == priority,
            t.add_time == add_time,
            !t.completed,
    {
        Task { name, description, priority, add_time, completed: false }
    }

    /// A fresh, uncompleted task stamped with the current clock time.
    pub fn new(name: String, description: String, priority: Priority) -> (t: Task)
        ensures
            t.name == name,
            t.description == description,
            t.priority == priority,
            !t.completed,
    {
        let now = now_timestamp_millis();
        Task::new_at(name, description, priority, now)
    }

    /// Marks the task done; every other field keeps its value.
    pub fn mark_as_completed(&mut self)
        ensures
            *final(self) == (Task { completed: true, ..*old(self) }),
    {
        self.completed = true;
    }
}

/// `t` edited as the manager edits: name, description and priority taken
/// from `upd`, creation time and completion state kept.
pub open spec fn spec_edited(t: Task, upd: Task) -> Task {
    Task {
        name: upd.name,
        description: upd.description,
        priority: upd.priority,
        add_time: t.add_time,
        completed: t.completed,
    }
}

/// `t` marked as done.
pub open spec fn spec_completed(t: Task) -> Task {
    Task { completed: true, ..t }
}

/// Index of the first task called `name`, if any.
pub open spec fn spec_find(tasks: Seq<Task>, name: Seq<char>) -> Option<int>
    decreases tasks.len(),
{
    if tasks.len() == 0 {
        None
    } else if tasks[0].name@ == name {
        Some(0int)
    } else {
        match spec_find(tasks.drop_first(), name) {
            Some(i) => Some(i + 1),
            None => None,
        }
    }
}

/// What `spec_find` returns: the first index holding the name, when one
/// exists, and nothing exactly when no task carries the name.
pub proof fn lemma_spec_find_props(tasks: Seq<Task>, name: Seq<char>)
    ensures
        match spec_find(tasks, name) {
            Some(i) => {
                &&& 0 <= i < tasks.len()
                &&& tasks[i].name@ == name
                &&& forall|x: int| 0 <= x < i ==> #[trigger] tasks[x].name@ != name
            },
            None => forall|x: int| 0 <= x < tasks.len() ==> #[trigger] tasks[x].name@ != name,
        },
    decreases tasks.len(),
{
    if tasks.len() > 0 && tasks[0].name@ != name {
        lemma_spec_find_props(tasks.drop_first(), name);
        match spec_find(tasks.drop_first(), name) {
            Some(i) => {
                assert(tasks.drop_first()[i] == tasks[i + 1]);
                assert forall|x: int| 0 <= x < i + 1 implies #[trigger] tasks[x].name@ != name by {
                    if x > 0 {
                        assert(tasks.drop_first()[x - 1] == tasks[x]);
                    }
                }
            },
            None => {
                assert forall|x: int| 0 <= x < tasks.len() implies #[trigger] tasks[x].name@
                    != name by {
                    if x > 0 {
                        assert(tasks.drop_first()[x - 1] == tasks[x]);
                    }
                }
            },
        }
    }
}

/// Scanning up to the first match computes `spec_find`.
proof fn lemma_spec_find_at(tasks: Seq<Task>, name: Seq<char>, j: int)
    requires
        0 <= j < tasks.len(),
        tasks[j].name@ == name,
        forall|x: int| 0 <= x < j ==> #[trigger] tasks[x].name@ != name,
    ensures
        spec_find(tasks, name) == Some(j),
    decreases tasks.len(),
{
    if j > 0 {
        lemma_spec_find_at(tasks.drop_first(), name, j - 1);
    }
}

/// A scan that matches nowhere computes the absent result.
proof fn lemma_spec_find_none(tasks: Seq<Task>, name: Seq<char>)
    requires
        forall|x: int| 0 <= x < tasks.len() ==> #[trigger] tasks[x].name@ != name,
    ensures
        spec_find(tasks, name) is None,
    decreases tasks.len(),
{
    if tasks.len() > 0 {
        lemma_spec_find_none(tasks.drop_first(), name);
    }
}

/// Display order: lower rank first, then earlier creation, then earlier
/// position — the stable grouping-then-sorting the console shows.
pub open spec fn display_le(tasks: Seq<Task>, a: int, b: int) -> bool
    recommends
        0 <= a < tasks.len(),
        0 <= b < tasks.len(),
{
    ||| tasks[a].priority.spec_order() < tasks[b].priority.spec_order()
    ||| (tasks[a].priority.spec_order() == tasks[b].priority.spec_order()
        && tasks[a].add_time < tasks[b].add_time)
    ||| (tasks[a].priority.spec_order() == tasks[b].priority.spec_order()
        && tasks[a].add_time == tasks[b].add_time && a <= b)
}

/// The tasks of a console session, in insertion order.
pub struct TasksManager {
    tasks: Vec<Task>,
}

impl View for TasksManager {
    type V = Seq<Task>;

    closed spec fn view(&self) -> Seq<Task> {
        self.tasks@
    }
}

impl TasksManager {
    /// A manager with no tasks.
    pub fn new() -> (m: Self)
        ensures
            m@ == Seq::<Task>::empty(),
    {
        TasksManager { tasks: Vec::new() }
    }

    /// Number of tasks held.
    pub fn len(&self) -> (n: usize)
        ensures
            n == self@.len(),
    {
        self.tasks.len()
    }

    /// Appends `task` behind the existing ones.
    pub fn add_task(&mut self, task: Task)
        requires
            old(self)@.len() < usize::MAX,
        ensures
            final(self)@ == old(self)@.push(task),
    {
        self.tasks.push(task);
    }

    /// A read-only handle to the task at `index`, if it is in range.
    pub fn get_task(&self, index: usize) -> (r: Option<&Task>)
        ensures
            match r {
                Some(t) => index < self@.len() && *t == self@[index as int],
                None => index >= self@.len(),
            },
    {
        if index < self.tasks.len() {
            Some(&self.tasks[index])
        } else {
            None
        }
    }

    /// Position of the first task called `name`, if any.
    pub fn find_task(&self, name: &str) -> (r: Option<usize>)
        ensures
            match r {
                Some(i) => spec_find(self@, name@) == Some(i as int),
                None => spec_find(self@, name@) is None,
            },
    {
        let n = self.tasks.len();
        let mut i: usize = 0;
        while i < n
            invariant
                n == self@.len(),
                i <= n,
                forall|x: int| 0 <= x < i ==> #[trigger] self@[x].name@ != name@,
            decreases n - i,
        {
            if str_eq(self.tasks[i].name.as_str(), name) {
                proof {
                    lemma_spec_find_at(self@, name@, i as int);
                }
                return Some(i);
            }
            i = i + 1;
        }
        proof {
            lemma_spec_find_none(self@, name@);
        }
        None
    }

    /// Removes the first task called `name`, keeping the order of the
    /// rest; reports whether one existed.
    pub fn remove_task(&mut self, name: &str) -> (r: bool)
        ensures
            match spec_find(old(self)@, name@) {
                Some(i) => r && final(self)@ == old(self)@.remove(i),
                None => !r && *final(self) == *old(self),
            },
    {
        match self.find_task(name) {
            Some(index) => {
                proof {
                    lemma_spec_find_props(old(self)@, name@);
                }
                self.tasks.remove(index);
                true
            },
            None => false,
        }
    }

    /// Rewrites the name, description and priority of the first task
    /// called `name` from `updated_task`, keeping its creation time and
    /// completion state; reports whether one existed.
    pub fn edit_task(&mut self, name: &str, updated_task: Task) -> (r: bool)
        ensures
            match spec_find(old(self)@, name@) {
                Some(i) => r && final(self)@ == old(self)@.update(
                    i,
                    spec_edited(old(self)@[i], updated_task),
                ),
                None => !r && *final(self) == *old(self),
            },
    {
        match self.find_task(name) {
            Some(index) => {
                proof {
                    lemma_spec_find_props(old(self)@, name@);
                }
                let add_time = self.tasks[index].add_time;
                let completed = self.tasks[index].completed;
                let t = Task {
                    name: updated_task.name,
                    description: updated_task.description,
                    priority: updated_task.priority,
                    add_time,
                    completed,
                };
                self.tasks[index] = t;
                true
            },
            None => false,
        }
    }

    /// Marks the task at `index` done, keeping its other fields; reports
    /// whether the index was in range.
    pub fn mark_task_completed(&mut self, index: usize) -> (r: bool)
        ensures
            index < old(self)@.len() ==> r && final(self)@ == old(self)@.update(
                index as int,
                spec_completed(old(self)@[index as int]),
            ),
            index >= old(self)@.len() ==> !r && *final(self) == *old(self),
    {
        if index < self.tasks.len() {
            let t = Task {
                name: self.tasks[index].name.clone(),
                description: self.tasks[index].description.clone(),
                priority: self.tasks[index].priority,
                add_time: self.tasks[index].add_time,
                completed: true,
            };
            self.tasks[index] = t;
            true
        } else {
            false
        }
    }

    /// Whether the task at `a` shows no later than the one at `b`.
    fn display_le_exec(&self, a: usize, b: usize) -> (r: bool)
        requires
            a < self@.len(),
            b < self@.len(),
        ensures
            r == display_le(self@, a as int, b as int),
    {
        let oa = self.tasks[a].priority.order();
        let ob = self.tasks[b].priority.order();
        if oa != ob {
            oa < ob
        } else if self.tasks[a].add_time != self.tasks[b].add_time {
            self.tasks[a].add_time < self.tasks[b].add_time
        } else {
            a <= b
        }
    }

    /// The positions of all tasks, arranged as the console prints them:
    /// ranked by priority, then by creation time, then by position — a
    /// permutation of `0..len`, stably sorted.
    pub fn display_order(&self) -> (ord: Vec<usize>)
        ensures
            ord@.len() == self@.len(),
            forall|x: int| 0 <= x < ord@.len() ==> (#[trigger] ord@[x]) < self@.len(),
            forall|x: int, y: int|
                0 <= x < ord@.len() && 0 <= y < ord@.len() && x != y ==> ord@[x] != ord@[y],
            forall|x: int, y: int|
                0 <= x < y < ord@.len() ==> display_le(self@, ord@[x] as int, ord@[y] as int),
    {
        let n = self.tasks.len();
        let mut ord: Vec<usize> = Vec::new();
        let mut i: usize = 0;
        while i < n
            invariant
                i <= n,
                ord@.len() == i,
                forall|x: int| 0 <= x < i ==> #[trigger] ord@[x] == x,
            decreases n - i,
        {
            ord.push(i);
            i = i + 1;
        }
        if n == 0 {
            return ord;
        }
        let mut i: usize = 1;
        while i < n
            invariant
                n == self@.len(),
                1 <= i <= n,
                ord@.len() == n,
                forall|x: int| 0 <= x < n ==> (#[trigger] ord@[x]) < n,
                forall|x: int, y: int| 0 <= x < n && 0 <= y < n && x != y ==> ord@[x] != ord@[y],
                forall|x: int, y: int|
                    0 <= x < y < i ==> display_le(self@, ord@[x] as int, ord@[y] as int),
            decreases n - i,
        {
            let mut j: usize = i;
            while j > 0 && !self.display_le_exec(ord[j - 1], ord[j])
                invariant
                    n == self@.len(),
                    j <= i < n,
                    ord@.len() == n,
                    forall|x: int| 0 <= x < n ==> (#[trigger] ord@[x]) < n,
                    forall|x: int, y: int|
                        0 <= x < n && 0 <= y < n && x != y ==> ord@[x] != ord@[y],
                    forall|x: int, y: int|
                        0 <= x < y <= i && y != j ==> display_le(self@, ord@[x] as int, ord@[y] as int),
                decreases j,
            {
                let a = ord[j - 1];
                let b = ord[j];
                ord[j - 1] = b;
                ord[j] = a;
                j = j - 1;
            }
            proof {
                assert forall|x: int, y: int| 0 <= x < y <= i implies display_le(
                    self@,
                    ord@[x] as int,
                    ord@[y] as int,
                ) by {
                    if y == j {
                        if x < y - 1 {
                            assert(display_le(self@, ord@[x] as int, ord@[y - 1] as int));
                        }
                        assert(display_le(self@, ord@[y - 1] as int, ord@[y] as int));
                    }
                }
            }
            i = i + 1;
        }
        ord
    }
}

} // verus!
