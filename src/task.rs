use vstd::prelude::*;

verus! {

/// Where a task stands.
#[derive(Debug, Clone, Copy, PartialEq, Eq, Structural)]
pub enum TaskStatus {
    Todo,
    InProgress,
    Done,
}

/// The spelling of a status in the stored format, always lower case.
pub open spec fn status_word(st: TaskStatus) -> Seq<char> {
    match st {
        TaskStatus::Todo => "todo"@,
        TaskStatus::InProgress => "in-progress"@,
        TaskStatus::Done => "done"@,
    }
}

/// ASCII lower case of one character; every other character is kept.
pub open spec fn ascii_lower(c: char) -> char {
    if 'A' <= c && c <= 'Z' {
        ((c as u8) + 32) as u8 as char
    } else {
        c
    }
}

pub open spec fn ascii_lower_seq(s: Seq<char>) -> Seq<char> {
    s.map_values(|c: char| ascii_lower(c))
}

/// The status that a text names, compared without regard to ASCII case.
pub open spec fn parse_status(s: Seq<char>) -> Option<TaskStatus> {
    let l = ascii_lower_seq(s);
    if l == status_word(TaskStatus::Todo) {
        Some(TaskStatus::Todo)
    } else if l == status_word(TaskStatus::InProgress) {
        Some(TaskStatus::InProgress)
    } else if l == status_word(TaskStatus::Done) {
        Some(TaskStatus::Done)
    } else {
        None
    }
}

pub open spec fn status_emoji(st: TaskStatus) -> Seq<char> {
    match st {
        TaskStatus::Todo => "\u{1F4DD}"@,
        TaskStatus::InProgress => "\u{26A1}"@,
        TaskStatus::Done => "\u{2728}"@,
    }
}

fn lower_char(c: char) -> (r: char)
    ensures
        r == ascii_lower(c),
{
    if 'A' <= c && c <= 'Z' {
        let b: u8 = (c as u8) + 32;
        b as char
    } else {
        c
    }
}

/// Whether `s`, lowered to ASCII lower case, spells `w`.
fn lower_equals(s: &str, w: &str) -> (r: bool)
    ensures
        r == (ascii_lower_seq(s@) == w@),
{
    let n = s.unicode_len();
    if n != w.unicode_len() {
        assert(ascii_lower_seq(s@).len() != w@.len());
        return false;
    }
    let mut i: usize = 0;
    while i < n
        invariant
            n == s@.len(),
            n == w@.len(),
            i <= n,
            forall|j: int| 0 <= j < i ==> ascii_lower(#[trigger] s@[j]) == w@[j],
        decreases n - i,
    {
        if lower_char(s.get_char(i)) != w.get_char(i) {
            assert(ascii_lower_seq(s@)[i as int] != w@[i as int]);
            return false;
        }
        i = i + 1;
    }
    assert(ascii_lower_seq(s@) =~= w@);
    true
}

impl TaskStatus {
    /// Reads a status, ignoring ASCII case; `None` for any other text.
    pub fn from_str(s: &str) -> (r: Option<TaskStatus>)
        ensures
            r == parse_status(s@),
    {
        if lower_equals(s, "todo") {
            Some(TaskStatus::Todo)
        } else if lower_equals(s, "in-progress") {
            Some(TaskStatus::InProgress)
        } else if lower_equals(s, "done") {
            Some(TaskStatus::Done)
        } else {
            None
        }
    }

    /// The lower-case spelling of the status.
    pub fn to_string(&self) -> (r: String)
        ensures
            r@ == status_word(*self),
    {
        match self {
            TaskStatus::Todo => String::from_str("todo"),
            TaskStatus::InProgress => String::from_str("in-progress"),
            TaskStatus::Done => String::from_str("done"),
        }
    }

    /// A one-character picture of the status.
    pub fn emoji(&self) -> (r: &'static str)
        ensures
            r@ == status_emoji(*self),
    {
        match self {
            TaskStatus::Todo => "\u{1F4DD}",
            TaskStatus::InProgress => "\u{26A1}",
            TaskStatus::Done => "\u{2728}",
        }
    }
}

/// What a task holds, with the description as a sequence of characters.
pub struct TaskView {
    pub id: u32,
    pub description: Seq<char>,
    pub status: TaskStatus,
}

/// One task record.
#[derive(Debug, Clone)]
pub struct Task {
    pub id: u32,
    pub description: String,
    pub status: TaskStatus,
}

impl View for Task {
    type V = TaskView;

    open spec fn view(&self) -> TaskView {
        TaskView { id: self.id, description: self.description@, status: self.status }
    }
}

/// The views of a sequence of tasks.
pub open spec fn tasks_view(ts: Seq<Task>) -> Seq<TaskView> {
    ts.map_values(|t: Task| t@)
}

impl Task {
    /// A new task, not yet started.
    pub fn new(id: u32, description: String) -> (r: Task)
        ensures
            r@ == (TaskView { id, description: description@, status: TaskStatus::Todo }),
    {
        Task { id, description, status: TaskStatus::Todo }
    }

    /// A task with the given status.
    pub fn with_status(id: u32, description: String, status: TaskStatus) -> (r: Task)
        ensures
            r@ == (TaskView { id, description: description@, status }),
    {
        Task { id, description, status }
    }
}

} // verus!
