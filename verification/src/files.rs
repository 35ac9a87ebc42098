//! The task database: a text with one task per line, written as the task,
//! `" due:"` and the due date; and the settings of the planner.

use vstd::prelude::*;
use vstd::string::*;
use crate::text::{
    chars_of, lemma_split_no_more, lemma_split_single_append, occurs_at, occurs_in, split_by,
    split_from, split_text, string_of, texts, trim, trim_text, same_text, join_by, join_text,
    lemma_join_split, lemma_split_from_nonempty, lemma_split_join_single,
};

verus! {

/// All settings of the planner.
pub struct Config {
    pub hours: Hours,
    pub week: Week,
    pub database: Database,
}

/// Settings of the day table.
pub struct Hours {
    /// Sets the rows of the day table: a day has `24 / min(hours, 24)` rows,
    /// each `24 / (24 / min(hours, 24))` hours long.
    pub hours: i32,
    /// `strftime`-style format of a row's time.
    pub text_format: String,
    /// Smallest width of the table's cells.
    pub min_line_length: i32,
    pub num_lines: i32,
    /// Filler after a row's time.
    pub horizontal_divisor: String,
    /// Left and right border of a cell.
    pub vertical_divisor: String,
}

/// Settings of the week table.
pub struct Week {
    /// Whether the week begins on Monday (else on Sunday).
    pub starts_on_monday: bool,
    /// Filler after a day's name.
    pub horizontal_divisor: String,
    /// Whether the days stand one below the other (else side by side).
    pub show_vertically: bool,
    pub today_char: String,
    /// `strftime`-style format of a day's name.
    pub text_format: String,
}

/// Where the database file lives.
pub struct Database {
    pub path: String,
    pub filename: String,
}

/// One task: what is to be done and when, the due date written as
/// `%Y-%m-%d(%H:%M:%S)`.
pub struct Task {
    pub task: String,
    pub due: String,
}

impl View for Task {
    type V = (Seq<char>, Seq<char>);

    open spec fn view(&self) -> (Seq<char>, Seq<char>) {
        (self.task@, self.due@)
    }
}

/// The (task, due) texts of a list of tasks.
pub open spec fn task_views(v: Seq<Task>) -> Seq<(Seq<char>, Seq<char>)> {
    v.map_values(|t: Task| t@)
}

/// The line separator of the database.
pub open spec fn newline() -> Seq<char> {
    seq!['\n']
}

/// What stands between a task and its due date on a database line.
pub open spec fn due_marker() -> Seq<char> {
    seq![' ', 'd', 'u', 'e', ':']
}

/// The task on one database line: the text before the first `" due:"` and
/// the text between it and the next one; none where the line holds no
/// `" due:"`.
pub open spec fn line_task(line: Seq<char>) -> Option<(Seq<char>, Seq<char>)> {
    let parts = split_by(line, due_marker());
    if parts.len() > 1 {
        Some((parts[0], parts[1]))
    } else {
        None
    }
}

/// The tasks of a list of lines, in order.
pub open spec fn lines_tasks(lines: Seq<Seq<char>>) -> Seq<(Seq<char>, Seq<char>)>
    decreases lines.len(),
{
    if lines.len() == 0 {
        seq![]
    } else {
        let rest = lines_tasks(lines.drop_last());
        match line_task(lines.last()) {
            Some(t) => rest.push(t),
            None => rest,
        }
    }
}

/// The tasks that a database text holds, line by line.
pub open spec fn database_tasks(content: Seq<char>) -> Seq<(Seq<char>, Seq<char>)> {
    lines_tasks(split_by(content, newline()))
}

/// The tasks that a database text holds, in the order of its lines.
pub fn parse_database(content: &str) -> (tasks: Vec<Task>)
    ensures
        task_views(tasks@) == database_tasks(content@),
{
    let chars = chars_of(content);
    let nl: Vec<char> = vec!['\n'];
    let marker: Vec<char> = vec![' ', 'd', 'u', 'e', ':'];
    assert(nl@ =~= newline());
    assert(marker@ =~= due_marker());
    let lines = split_text(&chars, &nl);
    let mut tasks: Vec<Task> = Vec::new();
    let mut i: usize = 0;
    assert(texts(lines@).take(0) =~= seq![]);
    while i < lines.len()
        invariant
            i <= lines.len(),
            marker@ == due_marker(),
            texts(lines@) == split_by(chars@, newline()),
            task_views(tasks@) == lines_tasks(texts(lines@).take(i as int)),
        decreases lines.len() - i,
    {
        let parts = split_text(&lines[i], &marker);
        let ghost before = task_views(tasks@);
        assert(texts(lines@).take(i + 1).drop_last() =~= texts(lines@).take(i as int));
        assert(texts(lines@).take(i + 1).last() == lines@[i as int]@);
        if parts.len() > 1 {
            let t = Task { task: string_of(&parts[0]), due: string_of(&parts[1]) };
            assert(texts(parts@)[0] == parts@[0]@);
            assert(texts(parts@)[1] == parts@[1]@);
            tasks.push(t);
            assert(task_views(tasks@) =~= before.push(t@));
        }
        i += 1;
    }
    assert(texts(lines@).take(lines.len() as int) =~= texts(lines@));
    tasks
}


/// The database text after one more task was written to it: a line break,
/// the task, `" due:"` and the due date.
pub fn database_with_task(content: &str, task: &Task) -> (r: String)
    ensures
        r@ == content@ + newline() + task.task@ + due_marker() + task.due@,
{
    let mut r = String::from_str(content);
    r.append("\n");
    r.append(task.task.as_str());
    r.append(" due:");
    r.append(task.due.as_str());
    proof {
        reveal_strlit("\n");
        reveal_strlit(" due:");
        assert("\n"@ =~= newline());
        assert(" due:"@ =~= due_marker());
    }
    r
}

/// A line made of a task, `" due:"` and a due date splits into exactly
/// those two texts when neither holds `" due:"`.
proof fn lemma_split_task_line(task: Seq<char>, due: Seq<char>)
    requires
        !occurs_in(task, due_marker()),
        !occurs_in(due, due_marker()),
    ensures
        split_by(task + due_marker() + due, due_marker()) == seq![task, due],
{
    let d = due_marker();
    let line = task + d + due;
    let tl = task.len() as int;
    assert forall|i: int| 0 <= i < tl implies !occurs_at(line, d, i) by {
        if occurs_at(line, d, i) {
            if i + 5 <= tl {
                assert(line.subrange(i, i + 5) =~= task.subrange(i, i + 5));
                assert(occurs_at(task, d, i));
            } else {
                assert(line[tl] == ' ');
                assert(line.subrange(i, i + 5)[tl - i] == line[tl]);
                assert(d[tl - i] != ' ');
            }
        }
    }
    assert forall|k: int| tl + 5 <= k implies !occurs_at(line, d, k) by {
        if occurs_at(line, d, k) {
            assert(line.subrange(k, k + 5) =~= due.subrange(k - tl - 5, k - tl));
            assert(occurs_at(due, d, k - tl - 5));
        }
    }
    lemma_split_no_more(line, d, tl + 5, tl + 5);
    assert(line.subrange(tl + 5, line.len() as int) =~= due);
    assert(line.subrange(tl, tl + 5) =~= d);
    assert(line.subrange(0, tl) =~= task);
    lemma_scan_to(line, d, tl);
    assert(split_from(line, d, 0, tl) =~= seq![task, due]);
}

/// With no occurrence of `d` before `j`, the scan from the start reaches `j`
/// with the first piece still under way.
proof fn lemma_scan_to(s: Seq<char>, d: Seq<char>, j: int)
    requires
        0 <= j <= s.len(),
        d.len() > 0,
        forall|i: int| 0 <= i < j ==> !occurs_at(s, d, i),
    ensures
        split_from(s, d, 0, 0) == split_from(s, d, 0, j),
    decreases j,
{
    if j > 0 {
        assert(!occurs_at(s, d, j - 1));
        lemma_scan_to(s, d, j - 1);
    }
}

/// What a write gives back on reading: the database text after a task was
/// written holds the tasks it held before and then that task, provided that
/// neither the task nor its due date holds a line break or `" due:"`.
pub proof fn law_written_task_reads_back(content: Seq<char>, task: Seq<char>, due: Seq<char>)
    requires
        forall|k: int| 0 <= k < task.len() ==> task[k] != '\n',
        forall|k: int| 0 <= k < due.len() ==> due[k] != '\n',
        !occurs_in(task, due_marker()),
        !occurs_in(due, due_marker()),
    ensures
        database_tasks(content + newline() + task + due_marker() + due) == database_tasks(
            content,
        ).push((task, due)),
{
    let line = task + due_marker() + due;
    assert(content + newline() + task + due_marker() + due =~= content + seq!['\n'] + line);
    assert forall|k: int| 0 <= k < line.len() implies line[k] != '\n' by {
        if k < task.len() {
        } else if k < task.len() + 5 {
            assert(line[k] == due_marker()[k - task.len()]);
        } else {
            assert(line[k] == due[k - task.len() - 5]);
        }
    }
    lemma_split_single_append(content, '\n', line);
    let lines = split_by(content, newline()).push(line);
    assert(lines.drop_last() =~= split_by(content, newline()));
    lemma_split_task_line(task, due);
}


/// The removal pass over the database lines: for each index `t` of a task,
/// in order, whose trimmed text equals the trimmed `name`, the line that
/// stands at index `t` of the list as it is by then is taken out. `None`
/// where such an index lies beyond the list (the pass cannot be made).
pub open spec fn remove_from(
    lines: Seq<Seq<char>>,
    tasks: Seq<(Seq<char>, Seq<char>)>,
    name: Seq<char>,
    t: int,
) -> Option<Seq<Seq<char>>>
    decreases tasks.len() - t,
{
    if t < 0 || t >= tasks.len() {
        Some(lines)
    } else if trim(tasks[t].0) == trim(name) {
        if t < lines.len() {
            remove_from(lines.remove(t), tasks, name, t + 1)
        } else {
            None
        }
    } else {
        remove_from(lines, tasks, name, t + 1)
    }
}

/// The database text after removing the task called `name`: the removal
/// pass over its lines, joined again with line breaks.
pub open spec fn database_without(content: Seq<char>, name: Seq<char>) -> Option<Seq<char>> {
    match remove_from(split_by(content, newline()), database_tasks(content), name, 0) {
        Some(lines) => Some(join_by(lines, newline())),
        None => None,
    }
}

/// The removal pass, or `None` where it cannot be made.
fn removal_pass(content: &str, name: &str) -> (r: Option<Vec<char>>)
    ensures
        match r {
            Some(v) => database_without(content@, name@) == Some(v@),
            None => database_without(content@, name@) is None,
        },
{
    let tasks = parse_database(content);
    let chars = chars_of(content);
    let nl: Vec<char> = vec!['\n'];
    assert(nl@ =~= newline());
    let mut lines = split_text(&chars, &nl);
    let name_chars = chars_of(name);
    let wanted = trim_text(&name_chars);
    let ghost all = task_views(tasks@);
    let ghost first_lines = texts(lines@);
    let mut t: usize = 0;
    while t < tasks.len()
        invariant
            t <= tasks.len(),
            all == task_views(tasks@),
            wanted@ == trim(name@),
            nl@ == newline(),
            first_lines == split_by(content@, newline()),
            all == database_tasks(content@),
            remove_from(texts(lines@), all, name@, t as int) == remove_from(
                first_lines,
                all,
                name@,
                0,
            ),
        decreases tasks.len() - t,
    {
        let task_chars = chars_of(tasks[t].task.as_str());
        let trimmed = trim_text(&task_chars);
        assert(all[t as int].0 == tasks@[t as int].task@);
        if same_text(&trimmed, &wanted) {
            if t < lines.len() {
                let ghost before = texts(lines@);
                lines.remove(t);
                assert(texts(lines@) =~= before.remove(t as int));
            } else {
                return None;
            }
        }
        t += 1;
    }
    Some(join_text(&lines, &nl))
}

/// Whether the task called `name` can be removed from the database text:
/// false exactly where the removal pass would reach past its last line.
pub fn can_remove_from_database(content: &str, name: &str) -> (b: bool)
    ensures
        b == (database_without(content@, name@) is Some),
{
    removal_pass(content, name).is_some()
}

/// The database text after removing the task called `name`.
pub fn database_without_task(content: &str, name: &str) -> (r: String)
    requires
        database_without(content@, name@) is Some,
    ensures
        Some(r@) == database_without(content@, name@),
{
    match removal_pass(content, name) {
        Some(v) => string_of(&v),
        None => String::new(),
    }
}

proof fn lemma_remove_none_matching(
    lines: Seq<Seq<char>>,
    tasks: Seq<(Seq<char>, Seq<char>)>,
    name: Seq<char>,
    t: int,
)
    requires
        0 <= t,
        forall|k: int| 0 <= k < tasks.len() ==> trim(#[trigger] tasks[k].0) != trim(name),
    ensures
        remove_from(lines, tasks, name, t) == Some(lines),
    decreases tasks.len() - t,
{
    if t < tasks.len() {
        lemma_remove_none_matching(lines, tasks, name, t + 1);
    }
}

/// Removing a name that no task of the database has (after trimming) leaves
/// the database text as it was.
pub proof fn law_removing_absent_name_keeps_text(content: Seq<char>, name: Seq<char>)
    requires
        forall|k: int|
            0 <= k < database_tasks(content).len() ==> trim(#[trigger] database_tasks(content)[k].0)
                != trim(name),
    ensures
        database_without(content, name) == Some(content),
{
    lemma_remove_none_matching(split_by(content, newline()), database_tasks(content), name, 0);
    lemma_join_split(content, newline());
}


/// The pieces of a split at a one-character separator do not hold it.
proof fn lemma_split_pieces_free(s: Seq<char>, c: char, start: int, i: int)
    requires
        0 <= start <= i <= s.len(),
        forall|q: int| start <= q < i ==> s[q] != c,
    ensures
        forall|k: int, q: int|
            0 <= k < split_from(s, seq![c], start, i).len() && 0 <= q < split_from(
                s,
                seq![c],
                start,
                i,
            )[k].len() ==> split_from(s, seq![c], start, i)[k][q] != c,
    decreases s.len() - i,
{
    let d = seq![c];
    if i + 1 > s.len() {
        let piece = s.subrange(start, s.len() as int);
        assert forall|q: int| 0 <= q < piece.len() implies piece[q] != c by {
            assert(piece[q] == s[start + q]);
        }
        assert(split_from(s, d, start, i) == seq![piece]);
    } else if s.subrange(i, i + 1) == d {
        let piece = s.subrange(start, i);
        assert forall|q: int| 0 <= q < piece.len() implies piece[q] != c by {
            assert(piece[q] == s[start + q]);
        }
        lemma_split_pieces_free(s, c, i + 1, i + 1);
        let rest = split_from(s, d, i + 1, i + 1);
        let all = seq![piece] + rest;
        assert(split_from(s, d, start, i) == all);
        assert forall|k: int, q: int| 0 <= k < all.len() && 0 <= q < all[k].len() implies all[k][q]
            != c by {
            if k > 0 {
                assert(all[k] == rest[k - 1]);
            }
        }
    } else {
        if s[i] == c {
            assert(s.subrange(i, i + 1) =~= d);
        }
        assert(split_from(s, d, start, i) == split_from(s, d, start, i + 1));
        lemma_split_pieces_free(s, c, start, i + 1);
    }
}

/// When every line is a task line, the tasks stand line for line.
proof fn lemma_all_task_lines(lines: Seq<Seq<char>>)
    requires
        forall|k: int| 0 <= k < lines.len() ==> (#[trigger] line_task(lines[k])) is Some,
    ensures
        lines_tasks(lines).len() == lines.len(),
        forall|k: int|
            0 <= k < lines.len() ==> #[trigger] lines_tasks(lines)[k] == line_task(lines[k]).unwrap(),
    decreases lines.len(),
{
    if lines.len() > 0 {
        let prev = lines.drop_last();
        assert forall|k: int| 0 <= k < prev.len() implies (#[trigger] line_task(prev[k])) is Some by {
            assert(prev[k] == lines[k]);
        }
        lemma_all_task_lines(prev);
        assert(line_task(lines[lines.len() - 1]) is Some);
        assert forall|k: int| 0 <= k < lines.len() implies #[trigger] lines_tasks(lines)[k]
            == line_task(lines[k]).unwrap() by {
            if k < prev.len() {
                assert(prev[k] == lines[k]);
            }
        }
    }
}

proof fn lemma_remove_no_match_from(
    lines: Seq<Seq<char>>,
    tasks: Seq<(Seq<char>, Seq<char>)>,
    name: Seq<char>,
    t: int,
)
    requires
        0 <= t,
        forall|k: int| t <= k < tasks.len() ==> trim(#[trigger] tasks[k].0) != trim(name),
    ensures
        remove_from(lines, tasks, name, t) == Some(lines),
    decreases tasks.len() - t,
{
    if t < tasks.len() {
        lemma_remove_no_match_from(lines, tasks, name, t + 1);
    }
}

proof fn lemma_remove_walk(
    lines: Seq<Seq<char>>,
    tasks: Seq<(Seq<char>, Seq<char>)>,
    name: Seq<char>,
    t: int,
    m: int,
)
    requires
        0 <= t <= m < tasks.len(),
        forall|k: int| t <= k < m ==> trim(#[trigger] tasks[k].0) != trim(name),
    ensures
        remove_from(lines, tasks, name, t) == remove_from(lines, tasks, name, m),
    decreases m - t,
{
    if t < m {
        lemma_remove_walk(lines, tasks, name, t + 1, m);
    }
}

/// Removing the one task of a database whose every line is a task line
/// takes out that task's line and nothing else: the text keeps the other
/// lines, in order, and reading it gives the other tasks, in order.
pub proof fn law_remove_single_task(content: Seq<char>, name: Seq<char>, m: int)
    requires
        forall|k: int|
            0 <= k < split_by(content, newline()).len() ==> (#[trigger] line_task(
                split_by(content, newline())[k],
            )) is Some,
        0 <= m < database_tasks(content).len(),
        trim(database_tasks(content)[m].0) == trim(name),
        forall|k: int|
            0 <= k < database_tasks(content).len() && k != m ==> trim(
                #[trigger] database_tasks(content)[k].0,
            ) != trim(name),
    ensures
        database_without(content, name) == Some(
            join_by(split_by(content, newline()).remove(m), newline()),
        ),
        database_tasks(database_without(content, name).unwrap()) == database_tasks(content).remove(
            m,
        ),
{
    let lines = split_by(content, newline());
    let tasks = database_tasks(content);
    lemma_all_task_lines(lines);
    lemma_remove_walk(lines, tasks, name, 0, m);
    let rest = lines.remove(m);
    lemma_remove_no_match_from(rest, tasks, name, m + 1);
    let text = join_by(rest, newline());
    lemma_split_pieces_free(content, '\n', 0, 0);
    assert forall|k: int| 0 <= k < rest.len() implies (#[trigger] line_task(rest[k])) is Some by {
        if k < m {
            assert(rest[k] == lines[k]);
        } else {
            assert(rest[k] == lines[k + 1]);
        }
    }
    lemma_all_task_lines(rest);
    if rest.len() == 0 {
        assert(text == Seq::<char>::empty());
        lemma_split_from_nonempty(text, newline(), 0, 0);
        assert(split_by(text, newline()) == seq![text.subrange(0, 0)]);
        assert(split_by(text, due_marker()) == seq![text.subrange(0, 0)]);
        assert(text.subrange(0, 0) =~= Seq::<char>::empty());
        assert(split_by(text, newline()) =~= seq![Seq::<char>::empty()]);
        assert(split_by(Seq::<char>::empty(), due_marker()) == seq![Seq::<char>::empty().subrange(0, 0)]);
        assert(Seq::<char>::empty().subrange(0, 0) =~= Seq::<char>::empty());
        assert(line_task(Seq::<char>::empty()) is None);
        let one = seq![Seq::<char>::empty()];
        assert(one.drop_last() =~= Seq::<Seq<char>>::empty());
        assert(one.last() == Seq::<char>::empty());
        assert(lines_tasks(one) == lines_tasks(one.drop_last()));
        assert(tasks.len() == lines.len());
        assert(tasks.remove(m).len() == 0);
        assert(seq![Seq::<char>::empty()].drop_last() =~= Seq::<Seq<char>>::empty());
        assert(database_tasks(text) =~= tasks.remove(m));
    } else {
        assert forall|i: int, k: int| 0 <= i < rest.len() && 0 <= k < rest[i].len() implies rest[i][k]
            != '\n' by {
            if i < m {
                assert(rest[i] == lines[i]);
            } else {
                assert(rest[i] == lines[i + 1]);
            }
        }
        lemma_split_join_single(rest, '\n');
        assert(newline() == seq!['\n']);
        assert(database_tasks(text) == lines_tasks(rest));
        assert forall|k: int| 0 <= k < rest.len() implies lines_tasks(rest)[k] == tasks.remove(m)[k] by {
            if k < m {
                assert(rest[k] == lines[k]);
            } else {
                assert(rest[k] == lines[k + 1]);
            }
        }
        assert(lines_tasks(rest) =~= tasks.remove(m));
    }
}

} // verus!
