use vstd::prelude::*;

use crate::task::{parse_status, status_word, tasks_view, Task, TaskStatus, TaskView};
use crate::text::{
    after_first, after_first_chars, contains, contains_chars, split, split_chars, string_of,
    to_chars, trim, trim_chars, views,
};

verus! {

// ---------------------------------------------------------------------------
// Escaping of descriptions
/// How one character of a description is written inside quotes.
pub open spec fn escape_char(c: char) -> Seq<char> {
    if c == '\\' {
        seq!['\\', '\\']
    } else if c == '"' {
        seq!['\\', '"']
    } else if c == '\n' {
        seq!['\\', 'n']
    } else if c == '\r' {
        seq!['\\', 'r']
    } else if c == '\t' {
        seq!['\\', 't']
    } else {
        seq![c]
    }
}

/// A description as it is written inside quotes.
pub open spec fn escape(s: Seq<char>) -> Seq<char>
    decreases s.len(),
{
    if s.len() == 0 {
        Seq::empty()
    } else {
        escape_char(s[0]) + escape(s.drop_first())
    }
}

/// `s` with each occurrence of the pair `a b` replaced by `t`, scanning from
/// the left, occurrences not overlapping.
pub open spec fn replace_pair(s: Seq<char>, a: char, b: char, t: char) -> Seq<char>
    decreases s.len(),
{
    if s.len() == 0 {
        Seq::empty()
    } else if s.len() >= 2 && s[0] == a && s[1] == b {
        seq![t] + replace_pair(s.subrange(2, s.len() as int), a, b, t)
    } else {
        seq![s[0]] + replace_pair(s.drop_first(), a, b, t)
    }
}

/// The text read back from between quotes: the five escapes are replaced one
/// after the other, each over the whole text.
pub open spec fn unescape(s: Seq<char>) -> Seq<char> {
    let s1 = replace_pair(s, '\\', '"', '"');
    let s2 = replace_pair(s1, '\\', '\\', '\\');
    let s3 = replace_pair(s2, '\\', 'n', '\n');
    let s4 = replace_pair(s3, '\\', 'r', '\r');
    replace_pair(s4, '\\', 't', '\t')
}

fn escape_chars(s: &Vec<char>) -> (r: Vec<char>)
    ensures
        r@ == escape(s@),
{
    let n = s.len();
    let mut out: Vec<char> = Vec::new();
    let mut i: usize = 0;
    assert(s@.subrange(0, n as int) =~= s@);
    while i < n
        invariant
            i <= n == s.len(),
            out@ + escape(s@.subrange(i as int, n as int)) == escape(s@),
        decreases n - i,
    {
        let ghost rest = s@.subrange(i as int, n as int);
        assert(rest.drop_first() =~= s@.subrange(i + 1, n as int));
        let ghost before = out@;
        let c = s[i];
        if c == '\\' {
            out.push('\\');
            out.push('\\');
        } else if c == '"' {
            out.push('\\');
            out.push('"');
        } else if c == '\n' {
            out.push('\\');
            out.push('n');
        } else if c == '\r' {
            out.push('\\');
            out.push('r');
        } else if c == '\t' {
            out.push('\\');
            out.push('t');
        } else {
            out.push(c);
        }
        assert(out@ =~= before + escape_char(c));
        assert(before + escape(rest) =~= out@ + escape(s@.subrange(i + 1, n as int)));
        i = i + 1;
    }
    assert(out@ =~= escape(s@));
    out
}

fn replace_pair_chars(s: &Vec<char>, a: char, b: char, t: char) -> (r: Vec<char>)
    ensures
        r@ == replace_pair(s@, a, b, t),
{
    let n = s.len();
    let mut out: Vec<char> = Vec::new();
    let mut i: usize = 0;
    assert(s@.subrange(0, n as int) =~= s@);
    while i < n
        invariant
            i <= n == s.len(),
            out@ + replace_pair(s@.subrange(i as int, n as int), a, b, t) == replace_pair(
                s@,
                a,
                b,
                t,
            ),
        decreases n - i,
    {
        let ghost rest = s@.subrange(i as int, n as int);
        let ghost before = out@;
        if i + 1 < n && s[i] == a && s[i + 1] == b {
            assert(rest.subrange(2, rest.len() as int) =~= s@.subrange(i + 2, n as int));
            out.push(t);
            assert(before + replace_pair(rest, a, b, t) =~= out@ + replace_pair(
                s@.subrange(i + 2, n as int),
                a,
                b,
                t,
            ));
            i = i + 2;
        } else {
            assert(rest.drop_first() =~= s@.subrange(i + 1, n as int));
            out.push(s[i]);
            assert(before + replace_pair(rest, a, b, t) =~= out@ + replace_pair(
                s@.subrange(i + 1, n as int),
                a,
                b,
                t,
            ));
            i = i + 1;
        }
    }
    assert(s@.subrange(n as int, n as int) =~= Seq::<char>::empty());
    assert(out@ =~= replace_pair(s@, a, b, t));
    out
}

fn unescape_chars(s: &Vec<char>) -> (r: Vec<char>)
    ensures
        r@ == unescape(s@),
{
    let s1 = replace_pair_chars(s, '\\', '"', '"');
    let s2 = replace_pair_chars(&s1, '\\', '\\', '\\');
    let s3 = replace_pair_chars(&s2, '\\', 'n', '\n');
    let s4 = replace_pair_chars(&s3, '\\', 'r', '\r');
    replace_pair_chars(&s4, '\\', 't', '\t')
}


// ---------------------------------------------------------------------------
// Fields of one line
pub open spec fn is_digit(c: char) -> bool {
    '0' <= c && c <= '9'
}

/// The ASCII digits of `s`, in order; every other character is left out.
pub open spec fn ascii_digits(s: Seq<char>) -> Seq<char>
    decreases s.len(),
{
    if s.len() == 0 {
        Seq::empty()
    } else if is_digit(s[0]) {
        seq![s[0]] + ascii_digits(s.drop_first())
    } else {
        ascii_digits(s.drop_first())
    }
}

/// The number that a sequence of decimal digits writes.
pub open spec fn digits_value(d: Seq<char>) -> nat
    decreases d.len(),
{
    if d.len() == 0 {
        0
    } else {
        digits_value(d.drop_last()) * 10 + ((d.last() as u32) - 48) as nat
    }
}

/// The number on an `id` line: the digits after the first colon, if there
/// are any and they write a value that fits in `u32`.
pub open spec fn number_of(line: Seq<char>) -> Option<u32> {
    match after_first(line, ':') {
        None => None,
        Some(rest) => {
            let d = ascii_digits(rest);
            if d.len() == 0 || digits_value(d) > u32::MAX {
                None
            } else {
                Some(digits_value(d) as u32)
            }
        },
    }
}

/// The quoted value on a line: the fourth piece between `"` characters,
/// unescaped, if the line has at least three of them.
pub open spec fn string_of_line(line: Seq<char>) -> Option<Seq<char>> {
    let parts = split(line, '"');
    if parts.len() >= 4 {
        Some(unescape(parts[3]))
    } else {
        None
    }
}

fn digits_chars(s: &Vec<char>) -> (r: Vec<char>)
    ensures
        r@ == ascii_digits(s@),
{
    let n = s.len();
    let mut out: Vec<char> = Vec::new();
    let mut i: usize = 0;
    assert(s@.subrange(0, n as int) =~= s@);
    while i < n
        invariant
            i <= n == s.len(),
            out@ + ascii_digits(s@.subrange(i as int, n as int)) == ascii_digits(s@),
        decreases n - i,
    {
        let ghost rest = s@.subrange(i as int, n as int);
        assert(rest.drop_first() =~= s@.subrange(i + 1, n as int));
        let ghost before = out@;
        if '0' <= s[i] && s[i] <= '9' {
            out.push(s[i]);
            assert(before + ascii_digits(rest) =~= out@ + ascii_digits(
                s@.subrange(i + 1, n as int),
            ));
        }
        i = i + 1;
    }
    assert(out@ =~= ascii_digits(s@));
    out
}

fn number_in(line: &Vec<char>) -> (r: Option<u32>)
    ensures
        r == number_of(line@),
{
    let rest = match after_first_chars(line, ':') {
        Some(v) => v,
        None => {
            return None;
        },
    };
    let d = digits_chars(&rest);
    if d.len() == 0 {
        return None;
    }
    let mut acc: u64 = 0;
    let mut i: usize = 0;
    while i < d.len()
        invariant
            i <= d.len(),
            d@ == ascii_digits(rest@),
            after_first(line@, ':') == Some(rest@),
            acc <= u32::MAX,
            acc == digits_value(d@.subrange(0, i as int)),
        decreases d.len() - i,
    {
        assert(d@.subrange(0, i + 1).drop_last() =~= d@.subrange(0, i as int));
        assert(is_digit(d@[i as int])) by {
            lemma_digits_are_digits(rest@);
        }
        let k: u64 = (d[i] as u32 - 48) as u64;
        let next: u64 = acc * 10 + k;
        assert(d@.subrange(0, i + 1).last() == d@[i as int]);
        assert(digits_value(d@.subrange(0, i + 1)) == next);
        if next > u32::MAX as u64 {
            proof {
                lemma_digits_value_grows(d@, i as int + 1);
            }
            return None;
        }
        acc = next;
        i = i + 1;
    }
    assert(d@.subrange(0, d.len() as int) =~= d@);
    Some(acc as u32)
}

proof fn lemma_digits_are_digits(s: Seq<char>)
    ensures
        forall|i: int| 0 <= i < ascii_digits(s).len() ==> is_digit(#[trigger] ascii_digits(s)[i]),
    decreases s.len(),
{
    if s.len() > 0 {
        lemma_digits_are_digits(s.drop_first());
        let t = ascii_digits(s.drop_first());
        if is_digit(s[0]) {
            assert forall|i: int| 0 <= i < ascii_digits(s).len() implies is_digit(
                #[trigger] ascii_digits(s)[i],
            ) by {
                if i > 0 {
                    assert(ascii_digits(s)[i] == t[i - 1]);
                }
            }
        }
    }
}

/// A longer prefix of digits writes a value at least as large.
proof fn lemma_digits_value_grows(d: Seq<char>, k: int)
    requires
        0 <= k <= d.len(),
    ensures
        digits_value(d.subrange(0, k)) <= digits_value(d),
    decreases d.len() - k,
{
    if k < d.len() {
        lemma_digits_value_grows(d, k + 1);
        assert(d.subrange(0, k + 1).drop_last() =~= d.subrange(0, k));
    } else {
        assert(d.subrange(0, k) =~= d);
    }
}

fn string_in(line: &Vec<char>) -> (r: Option<Vec<char>>)
    ensures
        match r {
            Some(v) => string_of_line(line@) == Some(v@),
            None => string_of_line(line@) is None,
        },
{
    let parts = split_chars(line, '"');
    if parts.len() >= 4 {
        Some(unescape_chars(&parts[3]))
    } else {
        None
    }
}


// ---------------------------------------------------------------------------
// One object
/// The fields recovered so far from the lines of one object.
pub struct Fields {
    pub id: Option<u32>,
    pub description: Option<Seq<char>>,
    pub status: Option<TaskStatus>,
}

pub open spec fn no_fields() -> Fields {
    Fields { id: None, description: None, status: None }
}

/// The `id` test on a trimmed line: a line holding the `id` key sets the id
/// when it carries a number.
pub open spec fn id_step(f: Fields, l: Seq<char>) -> Fields {
    if contains(l, "\"id\""@) {
        match number_of(l) {
            Some(v) => Fields { id: Some(v), ..f },
            None => f,
        }
    } else {
        f
    }
}

/// The `description` test on a trimmed line: a line holding the
/// `description` key sets the description when it carries a quoted value.
pub open spec fn description_step(f: Fields, l: Seq<char>) -> Fields {
    if contains(l, "\"description\""@) {
        match string_of_line(l) {
            Some(v) => Fields { description: Some(v), ..f },
            None => f,
        }
    } else {
        f
    }
}

/// The `status` test on a trimmed line: a line holding the `status` key and
/// a quoted value sets the status to what the value names, which clears it
/// when the value names no status.
pub open spec fn status_step(f: Fields, l: Seq<char>) -> Fields {
    if contains(l, "\"status\""@) {
        match string_of_line(l) {
            Some(v) => Fields { status: parse_status(v), ..f },
            None => f,
        }
    } else {
        f
    }
}

/// What one line of an object adds. The line is trimmed and the three tests
/// are made independently, in the order `id`, `description`, `status`, so a
/// line holding several keys may set several fields.
pub open spec fn field_step(f: Fields, raw: Seq<char>) -> Fields {
    let l = trim(raw);
    status_step(description_step(id_step(f, l), l), l)
}

/// The fields recovered from a sequence of lines, read in order.
pub open spec fn fields_of(lines: Seq<Seq<char>>) -> Fields
    decreases lines.len(),
{
    if lines.len() == 0 {
        no_fields()
    } else {
        field_step(fields_of(lines.drop_last()), lines.last())
    }
}

/// The task that an object's text gives: present only when all three fields
/// were recovered.
pub open spec fn object_of(obj: Seq<char>) -> Option<TaskView> {
    let f = fields_of(split(obj, '\n'));
    if f.id is Some && f.description is Some && f.status is Some {
        Some(TaskView { id: f.id->0, description: f.description->0, status: f.status->0 })
    } else {
        None
    }
}

fn object_in(obj: &Vec<char>) -> (r: Option<Task>)
    ensures
        match r {
            Some(t) => object_of(obj@) == Some(t@),
            None => object_of(obj@) is None,
        },
{
    let lines = split_chars(obj, '\n');
    let id_key = to_chars("\"id\"");
    let description_key = to_chars("\"description\"");
    let status_key = to_chars("\"status\"");
    let mut id: Option<u32> = None;
    let mut description: Option<Vec<char>> = None;
    let mut status: Option<TaskStatus> = None;
    let mut k: usize = 0;
    while k < lines.len()
        invariant
            k <= lines.len(),
            id_key@ == "\"id\""@,
            description_key@ == "\"description\""@,
            status_key@ == "\"status\""@,
            ({
                let f = fields_of(views(lines@).subrange(0, k as int));
                &&& f.id == id
                &&& f.status == status
                &&& match description {
                    Some(d) => f.description == Some(d@),
                    None => f.description is None,
                }
            }),
        decreases lines.len() - k,
    {
        assert(views(lines@).subrange(0, k + 1).drop_last() =~= views(lines@).subrange(0, k as int));
        let line = trim_chars(&lines[k]);
        if contains_chars(&line, &id_key) {
            match number_in(&line) {
                Some(v) => {
                    id = Some(v);
                },
                None => {},
            }
        }
        if contains_chars(&line, &description_key) {
            match string_in(&line) {
                Some(v) => {
                    description = Some(v);
                },
                None => {},
            }
        }
        if contains_chars(&line, &status_key) {
            match string_in(&line) {
                Some(v) => {
                    let text = string_of(&v);
                    status = TaskStatus::from_str(text.as_str());
                },
                None => {},
            }
        }
        k = k + 1;
    }
    assert(views(lines@).subrange(0, lines.len() as int) =~= views(lines@));
    match (id, description, status) {
        (Some(i), Some(d), Some(st)) => Some(Task::with_status(i, string_of(&d), st)),
        _ => None,
    }
}

// ---------------------------------------------------------------------------
// A whole list
/// Where the scan of a list's body stands: the brace depth, the text of the
/// object being collected, and the tasks found so far.
pub struct ScanState {
    pub depth: int,
    pub buf: Seq<char>,
    pub found: Seq<TaskView>,
}

pub open spec fn scan_start() -> ScanState {
    ScanState { depth: 0, buf: Seq::empty(), found: Seq::empty() }
}

/// One character of the body. An object ends where a closing brace brings
/// the depth back to zero; outside objects characters are skipped.
pub open spec fn scan_step(st: ScanState, c: char) -> ScanState {
    if c == '{' {
        ScanState { depth: st.depth + 1, buf: st.buf.push(c), ..st }
    } else if c == '}' {
        if st.depth - 1 == 0 {
            let obj = st.buf.push(c);
            ScanState {
                depth: 0,
                buf: Seq::empty(),
                found: match object_of(obj) {
                    Some(t) => st.found.push(t),
                    None => st.found,
                },
            }
        } else {
            ScanState { depth: st.depth - 1, buf: st.buf.push(c), ..st }
        }
    } else if st.depth > 0 {
        ScanState { buf: st.buf.push(c), ..st }
    } else {
        st
    }
}

/// The state after scanning `s` from `st`.
pub open spec fn scan(st: ScanState, s: Seq<char>) -> ScanState
    decreases s.len(),
{
    if s.len() == 0 {
        st
    } else {
        scan(scan_step(st, s[0]), s.drop_first())
    }
}

/// Whether a trimmed text has the outer shape of a list.
pub open spec fn is_list_shape(t: Seq<char>) -> bool {
    t.len() >= 2 && t[0] == '[' && t.last() == ']'
}

/// The tasks that a stored text holds.
pub open spec fn decode(text: Seq<char>) -> Seq<TaskView> {
    let t = trim(text);
    if is_list_shape(t) {
        scan(scan_start(), t.subrange(1, t.len() - 1)).found
    } else {
        Seq::empty()
    }
}

fn decode_chars(text: &Vec<char>) -> (r: Vec<Task>)
    ensures
        tasks_view(r@) == decode(text@),
{
    let mut tasks: Vec<Task> = Vec::new();
    let t = trim_chars(text);
    if !(t.len() >= 2 && t[0] == '[' && t[t.len() - 1] == ']') {
        assert(tasks_view(tasks@) =~= Seq::<TaskView>::empty());
        return tasks;
    }
    let ghost body = t@.subrange(1, t.len() - 1);
    let end = t.len() - 1;
    let mut buf: Vec<char> = Vec::new();
    let mut depth: i128 = 0;
    let mut i: usize = 1;
    assert(body.subrange(0, body.len() as int) =~= body);
    assert(tasks_view(tasks@) =~= Seq::<TaskView>::empty());
    while i < end
        invariant
            1 <= i <= end,
            end == t.len() - 1,
            body == t@.subrange(1, end as int),
            -(i as int) <= depth <= i as int,
            scan(scan_start(), body) == scan(
                ScanState { depth: depth as int, buf: buf@, found: tasks_view(tasks@) },
                t@.subrange(i as int, end as int),
            ),
        decreases end - i,
    {
        let ghost st = ScanState { depth: depth as int, buf: buf@, found: tasks_view(tasks@) };
        let ghost rest = t@.subrange(i as int, end as int);
        assert(rest.drop_first() =~= t@.subrange(i + 1, end as int));
        let c = t[i];
        if c == '{' {
            depth = depth + 1;
            buf.push(c);
        } else if c == '}' {
            buf.push(c);
            depth = depth - 1;
            if depth == 0 {
                let found = object_in(&buf);
                match found {
                    Some(task) => {
                        tasks.push(task);
                        assert(tasks_view(tasks@) =~= st.found.push(task@));
                    },
                    None => {},
                }
                buf = Vec::new();
            }
        } else if depth > 0 {
            buf.push(c);
        }
        assert(scan_step(st, c) == ScanState {
            depth: depth as int,
            buf: buf@,
            found: tasks_view(tasks@),
        });
        i = i + 1;
    }
    tasks
}


// ---------------------------------------------------------------------------
// Writing a list
/// The decimal digit for `d`, which is below ten.
pub open spec fn digit_char(d: nat) -> char {
    ((d + 48) as u8) as char
}

/// `n` written in decimal, without leading zeros.
pub open spec fn decimal(n: nat) -> Seq<char>
    decreases n,
{
    if n < 10 {
        seq![digit_char(n)]
    } else {
        decimal(n / 10).push(digit_char(n % 10))
    }
}

/// One task as it is written, without what follows its closing brace.
pub open spec fn encode_object(t: TaskView) -> Seq<char> {
    "  {\n    \"id\": "@ + decimal(t.id as nat) + ",\n    \"description\": \""@ + escape(
        t.description,
    ) + "\",\n    \"status\": \""@ + status_word(t.status) + "\"\n  }"@
}

/// The entry for the task at index `i`: a comma follows every task but the
/// last.
pub open spec fn encode_entry(ts: Seq<TaskView>, i: int) -> Seq<char> {
    encode_object(ts[i]) + if i + 1 < ts.len() {
        ",\n"@
    } else {
        "\n"@
    }
}

/// The entries of the first `k` tasks.
pub open spec fn encode_entries(ts: Seq<TaskView>, k: int) -> Seq<char>
    decreases k,
{
    if k <= 0 {
        Seq::empty()
    } else {
        encode_entries(ts, k - 1) + encode_entry(ts, k - 1)
    }
}

/// The stored text of a task list.
pub open spec fn encode(ts: Seq<TaskView>) -> Seq<char> {
    "[\n"@ + encode_entries(ts, ts.len() as int) + "]\n"@
}

fn push_decimal(out: &mut String, n: u32)
    ensures
        final(out)@ == old(out)@ + decimal(n as nat),
    decreases n,
{
    if n >= 10 {
        push_decimal(out, n / 10);
    }
    let d: u8 = (n % 10) as u8;
    crate::text::push_char(out, (d + 48) as char);
    assert(final(out)@ =~= old(out)@ + decimal(n as nat));
}

fn push_chars(out: &mut String, s: &Vec<char>)
    ensures
        final(out)@ == old(out)@ + s@,
{
    let mut i: usize = 0;
    while i < s.len()
        invariant
            i <= s.len(),
            out@ == old(out)@ + s@.subrange(0, i as int),
        decreases s.len() - i,
    {
        crate::text::push_char(out, s[i]);
        i = i + 1;
        assert(out@ =~= old(out)@ + s@.subrange(0, i as int));
    }
    assert(s@.subrange(0, s.len() as int) =~= s@);
}

fn encode_tasks(tasks: &[Task]) -> (r: String)
    ensures
        r@ == encode(tasks_view(tasks@)),
{
    let ghost ts = tasks_view(tasks@);
    let mut out = String::from_str("[\n");
    let mut i: usize = 0;
    while i < tasks.len()
        invariant
            i <= tasks.len(),
            ts == tasks_view(tasks@),
            out@ == "[\n"@ + encode_entries(ts, i as int),
        decreases tasks.len() - i,
    {
        let ghost before = out@;
        let task = &tasks[i];
        out.append("  {\n    \"id\": ");
        push_decimal(&mut out, task.id);
        out.append(",\n    \"description\": \"");
        let desc = to_chars(task.description.as_str());
        let escaped = escape_chars(&desc);
        push_chars(&mut out, &escaped);
        out.append("\",\n    \"status\": \"");
        let word = task.status.to_string();
        out.append(word.as_str());
        out.append("\"\n  }");
        if i + 1 < tasks.len() {
            out.append(",\n");
        } else {
            out.append("\n");
        }
        assert(ts[i as int] == task@);
        assert(out@ =~= before + encode_entry(ts, i as int));
        i = i + 1;
    }
    out.append("]\n");
    assert(ts.len() == tasks.len());
    out
}


// ---------------------------------------------------------------------------
/// The file that a task list is kept in, and the format it is kept in. The
/// reading and writing of the file itself is left to the caller.
pub struct Storage {
    pub file_path: String,
}

impl Storage {
    pub fn new(file_path: &str) -> (r: Storage)
        ensures
            r.file_path@ == file_path@,
    {
        Storage { file_path: String::from_str(file_path) }
    }

    /// The tasks held by a file's contents; no file, or contents that could
    /// not be read as text, hold none.
    pub fn tasks_from(&self, contents: Option<&str>) -> (r: Vec<Task>)
        ensures
            tasks_view(r@) == match contents {
                Some(text) => decode(text@),
                None => Seq::empty(),
            },
    {
        match contents {
            Some(text) => self.parse_json(text),
            None => {
                let r: Vec<Task> = Vec::new();
                assert(tasks_view(r@) =~= Seq::<TaskView>::empty());
                r
            },
        }
    }

    /// The stored text of `tasks`.
    pub fn to_json(&self, tasks: &[Task]) -> (r: String)
        ensures
            r@ == encode(tasks_view(tasks@)),
    {
        encode_tasks(tasks)
    }

    /// The tasks that a stored text holds. Malformed text gives fewer tasks,
    /// or none, and never an error.
    pub fn parse_json(&self, json: &str) -> (r: Vec<Task>)
        ensures
            tasks_view(r@) == decode(json@),
    {
        let text = to_chars(json);
        decode_chars(&text)
    }

    /// The task that the text of one object gives, if it has all three
    /// fields.
    pub fn parse_task_object(&self, obj: &str) -> (r: Option<Task>)
        ensures
            match r {
                Some(t) => object_of(obj@) == Some(t@),
                None => object_of(obj@) is None,
            },
    {
        let text = to_chars(obj);
        object_in(&text)
    }

    /// The number on an `id` line.
    pub fn extract_number(&self, line: &str) -> (r: Option<u32>)
        ensures
            r == number_of(line@),
    {
        let text = to_chars(line);
        number_in(&text)
    }

    /// The quoted value on a `description` or `status` line, unescaped.
    pub fn extract_string(&self, line: &str) -> (r: Option<String>)
        ensures
            match r {
                Some(v) => string_of_line(line@) == Some(v@),
                None => string_of_line(line@) is None,
            },
    {
        let text = to_chars(line);
        match string_in(&text) {
            Some(v) => Some(string_of(&v)),
            None => None,
        }
    }

    /// `s` as it is written between quotes.
    pub fn escape_json(&self, s: &str) -> (r: String)
        ensures
            r@ == escape(s@),
    {
        let text = to_chars(s);
        let e = escape_chars(&text);
        string_of(&e)
    }

    /// The text read back from between quotes.
    pub fn unescape_json(&self, s: &str) -> (r: String)
        ensures
            r@ == unescape(s@),
    {
        let text = to_chars(s);
        let u = unescape_chars(&text);
        string_of(&u)
    }
}

} // verus!
