//! The day table and the week table, and reading a day table back into
//! tasks.

use vstd::prelude::*;
use vstd::string::*;
use crate::clock::{
    datetime_in_range, day_of_week, day_start, format_datetime, parse_datetime, parse_time,
    spec_datetime_in_range, spec_format_datetime, spec_parse_datetime, spec_parse_time,
    start_of_day, weekday_from_monday, weekday_from_sunday,
};
use crate::files::{line_task, lines_tasks, newline, task_views, Config, Task};
use crate::text::{
    char_at_byte, char_index_at_byte, char_width, chars_of, join_by, lemma_join_concat,
    lemma_join_push, lemma_split_from_nonempty, lemma_split_join_single, lines_of, strip_cr,
    push_repeated, repeat_text, reversed, same_text, slice_of, spaces, split_by, split_text,
    str_len, string_of, strings, text_len, text_lines, texts, width_of,
};

verus! {

/// The greatest byte length among some texts (0 for none).
pub open spec fn longest(items: Seq<Seq<char>>) -> int
    decreases items.len(),
{
    if items.len() == 0 {
        0
    } else {
        let rest = longest(items.drop_last());
        let n = str_len(items.last()) as int;
        if rest < n {
            n
        } else {
            rest
        }
    }
}

/// The greatest byte length of a task among all rows (0 for none).
pub open spec fn widest(slots: Seq<Seq<Seq<char>>>) -> int
    decreases slots.len(),
{
    if slots.len() == 0 {
        0
    } else {
        let rest = widest(slots.drop_last());
        let n = longest(slots.last());
        if rest < n {
            n
        } else {
            rest
        }
    }
}

/// The greatest number of tasks in one row (0 for none).
pub open spec fn tallest(slots: Seq<Seq<Seq<char>>>) -> int
    decreases slots.len(),
{
    if slots.len() == 0 {
        0
    } else {
        let rest = tallest(slots.drop_last());
        let n = slots.last().len() as int;
        if rest < n {
            n
        } else {
            rest
        }
    }
}

/// The width of the cells: the widest task, but no less than `min_len`.
pub open spec fn table_width(slots: Seq<Seq<Seq<char>>>, min_len: int) -> int {
    if widest(slots) < min_len {
        min_len
    } else {
        widest(slots)
    }
}

/// Every text is at most `longest` bytes long, and `longest` is 0 or the
/// length of one of them.
proof fn lemma_longest_bound(items: Seq<Seq<char>>)
    ensures
        forall|j: int| 0 <= j < items.len() ==> str_len(#[trigger] items[j]) <= longest(items),
        longest(items) == 0 || exists|j: int|
            0 <= j < items.len() && str_len(#[trigger] items[j]) == longest(items),
        longest(items) >= 0,
    decreases items.len(),
{
    if items.len() > 0 {
        let rest = items.drop_last();
        lemma_longest_bound(rest);
        assert forall|j: int| 0 <= j < items.len() implies str_len(#[trigger] items[j]) <= longest(
            items,
        ) by {
            if j < rest.len() {
                assert(items[j] == rest[j]);
            }
        }
        if longest(items) != 0 {
            if longest(items) == str_len(items.last()) {
                assert(str_len(items[items.len() - 1]) == longest(items));
            } else {
                let j = choose|j: int| 0 <= j < rest.len() && str_len(#[trigger] rest[j]) == longest(rest);
                assert(items[j] == rest[j]);
            }
        }
    }
}

/// Every task is at most `widest` bytes long, and `widest` is 0 or the
/// length of one of them.
proof fn lemma_widest_bound(slots: Seq<Seq<Seq<char>>>)
    ensures
        forall|i: int, j: int|
            0 <= i < slots.len() && 0 <= j < slots[i].len() ==> str_len(#[trigger] slots[i][j])
                <= widest(slots),
        widest(slots) == 0 || exists|i: int, j: int|
            0 <= i < slots.len() && 0 <= j < slots[i].len() && str_len(#[trigger] slots[i][j])
                == widest(slots),
    decreases slots.len(),
{
    if slots.len() > 0 {
        let rest = slots.drop_last();
        let last = slots.last();
        lemma_widest_bound(rest);
        lemma_longest_bound(last);
        assert forall|i: int, j: int|
            0 <= i < slots.len() && 0 <= j < slots[i].len() implies str_len(#[trigger] slots[i][j])
                <= widest(slots) by {
            if i < rest.len() {
                assert(slots[i] == rest[i]);
            } else {
                assert(slots[i] == last);
            }
        }
        if widest(slots) != 0 {
            if widest(slots) == longest(last) {
                let j = choose|j: int| 0 <= j < last.len() && str_len(#[trigger] last[j]) == longest(last);
                assert(slots[slots.len() - 1][j] == last[j]);
            } else {
                let (i, j) = choose|i: int, j: int|
                    0 <= i < rest.len() && 0 <= j < rest[i].len() && str_len(#[trigger] rest[i][j])
                        == widest(rest);
                assert(slots[i] == rest[i]);
            }
        }
    }
}

/// The cells of the day table are as wide as its longest task, and no
/// narrower than `min_len`: every task fits its cell, and the width is
/// `min_len` or the length of some task.
pub proof fn law_cells_fit_the_longest_task(slots: Seq<Seq<Seq<char>>>, min_len: int)
    requires
        min_len >= 0,
    ensures
        forall|i: int, j: int|
            0 <= i < slots.len() && 0 <= j < slots[i].len() ==> str_len(#[trigger] slots[i][j])
                <= table_width(slots, min_len),
        min_len <= table_width(slots, min_len),
        table_width(slots, min_len) == min_len || exists|i: int, j: int|
            0 <= i < slots.len() && 0 <= j < slots[i].len() && str_len(#[trigger] slots[i][j])
                == table_width(slots, min_len),
{
    lemma_widest_bound(slots);
}

/// The rows of the day table follow `hours`: with `h` the smaller of
/// `hours` and 24, there are `24 / h` rows, row `i` starting
/// `i * (86400 / (24 / h))` seconds into the day; where `h` divides 24,
/// each row spans exactly `h` hours.
pub proof fn law_rows_follow_hours(hours: i32, day: int, i: int)
    requires
        hours >= 1,
    ensures
        row_count(hours) == 24int / (if hours < 24 { hours as int } else { 24int }),
        row_start(day, hours, i) == day + i * (86400int / (24int / (if hours < 24 { hours as int } else { 24int }))),
        24int % (if hours < 24 { hours as int } else { 24int }) == 0 ==> row_span(hours) == (if hours < 24 {
            hours as int
        } else {
            24int
        }) * 3600int,
{
    let h: int = if hours < 24 { hours as int } else { 24int };
    if 24int % h == 0 {
        let c: int = 24int / h;
        vstd::arithmetic::div_mod::lemma_fundamental_div_mod(24int, h);
        assert(24int == h * c);
        assert(c > 0) by (nonlinear_arith)
            requires 24int == h * c, h >= 1;
        assert(86400int == c * (3600int * h)) by (nonlinear_arith)
            requires 24int == h * c;
        vstd::arithmetic::div_mod::lemma_div_multiples_vanish(3600int * h, c);
        assert(row_count(hours) == c);
    }
}

/// A task in its cell: padded with spaces to the cell's width, but only when
/// more than two would be missing.
pub open spec fn cell_text(task: Seq<char>, width: int) -> Seq<char> {
    if width - str_len(task) > 2 {
        task + spaces((width - str_len(task)) as nat)
    } else {
        task
    }
}

/// Line `j` of a row's cells: a line break, the border, the `j`-th task of
/// the row in its cell (or an empty cell), the border.
pub open spec fn line_text(slot: Seq<Seq<char>>, j: int, width: int, vd: Seq<char>) -> Seq<char> {
    seq!['\n'] + vd + (if j < slot.len() {
        cell_text(slot[j], width)
    } else {
        spaces(width as nat)
    }) + vd
}

/// The first `n` lines of a row's cells.
pub open spec fn lines_text(slot: Seq<Seq<char>>, n: nat, width: int, vd: Seq<char>) -> Seq<char>
    decreases n,
{
    if n == 0 {
        seq![]
    } else {
        lines_text(slot, (n - 1) as nat, width, vd) + line_text(slot, n - 1, width, vd)
    }
}

/// The head of a row: its time, then the filler repeated as many times as
/// the cell width exceeds the time's length, and twice more.
pub open spec fn head_text(label: Seq<char>, width: int, hd: Seq<char>) -> Seq<char> {
    label + repeat_text(hd, (width - str_len(label) + 2) as nat)
}

/// One row of the day table: its head, `rows` lines of cells, a line break.
pub open spec fn row_text(
    label: Seq<char>,
    slot: Seq<Seq<char>>,
    rows: nat,
    width: int,
    hd: Seq<char>,
    vd: Seq<char>,
) -> Seq<char> {
    head_text(label, width, hd) + lines_text(slot, rows, width, vd) + seq!['\n']
}

/// The first `n` rows of the day table.
pub open spec fn rows_text(
    labels: Seq<Seq<char>>,
    slots: Seq<Seq<Seq<char>>>,
    n: nat,
    rows: nat,
    width: int,
    hd: Seq<char>,
    vd: Seq<char>,
) -> Seq<char>
    decreases n,
{
    if n == 0 {
        seq![]
    } else {
        rows_text(labels, slots, (n - 1) as nat, rows, width, hd, vd) + row_text(
            labels[n - 1],
            slots[n - 1],
            rows,
            width,
            hd,
            vd,
        )
    }
}

/// The day table for rows with the given times and tasks: every row has one
/// line more than the fullest row has tasks, and a ruler closes the table.
pub open spec fn hours_table(
    labels: Seq<Seq<char>>,
    slots: Seq<Seq<Seq<char>>>,
    min_len: int,
    hd: Seq<char>,
    vd: Seq<char>,
) -> Seq<char> {
    let width = table_width(slots, min_len);
    rows_text(labels, slots, labels.len(), (tallest(slots) + 1) as nat, width, hd, vd)
        + repeat_text(seq!['-'], (width + 2) as nat)
}

/// Cell line `j` of a row: the border, the `j`-th task in its cell (or an
/// empty cell), the border.
pub open spec fn cell_line(slot: Seq<Seq<char>>, j: int, width: int, vd: Seq<char>) -> Seq<char> {
    vd + (if j < slot.len() {
        cell_text(slot[j], width)
    } else {
        spaces(width as nat)
    }) + vd
}

/// The lines of one row of the day table: its head, then its `rows` cell
/// lines.
pub open spec fn row_lines(
    label: Seq<char>,
    slot: Seq<Seq<char>>,
    rows: nat,
    width: int,
    hd: Seq<char>,
    vd: Seq<char>,
) -> Seq<Seq<char>> {
    seq![head_text(label, width, hd)] + Seq::new(rows, |j: int| cell_line(slot, j, width, vd))
}

/// The lines of the first `n` rows.
pub open spec fn rows_lines(
    labels: Seq<Seq<char>>,
    slots: Seq<Seq<Seq<char>>>,
    n: nat,
    rows: nat,
    width: int,
    hd: Seq<char>,
    vd: Seq<char>,
) -> Seq<Seq<char>>
    decreases n,
{
    if n == 0 {
        seq![]
    } else {
        rows_lines(labels, slots, (n - 1) as nat, rows, width, hd, vd) + row_lines(
            labels[n - 1],
            slots[n - 1],
            rows,
            width,
            hd,
            vd,
        )
    }
}

/// The lines of the day table: each row's lines, then the ruler.
pub open spec fn table_lines(
    labels: Seq<Seq<char>>,
    slots: Seq<Seq<Seq<char>>>,
    min_len: int,
    hd: Seq<char>,
    vd: Seq<char>,
) -> Seq<Seq<char>> {
    let width = table_width(slots, min_len);
    rows_lines(labels, slots, labels.len(), (tallest(slots) + 1) as nat, width, hd, vd).push(
        repeat_text(seq!['-'], (width + 2) as nat),
    )
}

proof fn lemma_row_join(label: Seq<char>, slot: Seq<Seq<char>>, r: nat, width: int, hd: Seq<char>, vd: Seq<char>)
    ensures
        head_text(label, width, hd) + lines_text(slot, r, width, vd) == join_by(
            row_lines(label, slot, r, width, hd, vd),
            seq!['\n'],
        ),
    decreases r,
{
    let head = head_text(label, width, hd);
    if r == 0 {
        assert(row_lines(label, slot, r, width, hd, vd) =~= seq![head]);
        assert(head + lines_text(slot, r, width, vd) =~= head);
    } else {
        lemma_row_join(label, slot, (r - 1) as nat, width, hd, vd);
        let prev = row_lines(label, slot, (r - 1) as nat, width, hd, vd);
        let x = cell_line(slot, r - 1, width, vd);
        assert(row_lines(label, slot, r, width, hd, vd) =~= prev.push(x));
        lemma_join_push(prev, seq!['\n'], x);
        assert(line_text(slot, r - 1, width, vd) =~= seq!['\n'] + x);
        assert(head + lines_text(slot, r, width, vd) =~= head + lines_text(
            slot,
            (r - 1) as nat,
            width,
            vd,
        ) + seq!['\n'] + x);
    }
}

proof fn lemma_rows_join(
    labels: Seq<Seq<char>>,
    slots: Seq<Seq<Seq<char>>>,
    n: nat,
    rows: nat,
    width: int,
    hd: Seq<char>,
    vd: Seq<char>,
)
    requires
        n >= 1,
    ensures
        rows_text(labels, slots, n, rows, width, hd, vd) == join_by(
            rows_lines(labels, slots, n, rows, width, hd, vd),
            seq!['\n'],
        ) + seq!['\n'],
        rows_lines(labels, slots, n, rows, width, hd, vd).len() >= 1,
    decreases n,
{
    let rl = row_lines(labels[n - 1], slots[n - 1], rows, width, hd, vd);
    lemma_row_join(labels[n - 1], slots[n - 1], rows, width, hd, vd);
    if n == 1 {
        assert(rows_text(labels, slots, 0, rows, width, hd, vd) == Seq::<char>::empty());
        assert(rows_lines(labels, slots, 0, rows, width, hd, vd) == Seq::<Seq<char>>::empty());
        assert(rows_lines(labels, slots, n, rows, width, hd, vd) =~= rl);
        assert(rows_text(labels, slots, n, rows, width, hd, vd) =~= row_text(
            labels[0],
            slots[0],
            rows,
            width,
            hd,
            vd,
        ));
    } else {
        lemma_rows_join(labels, slots, (n - 1) as nat, rows, width, hd, vd);
        let prev = rows_lines(labels, slots, (n - 1) as nat, rows, width, hd, vd);
        lemma_join_concat(prev, rl, seq!['\n']);
        assert(rows_text(labels, slots, n, rows, width, hd, vd) =~= join_by(prev, seq!['\n'])
            + seq!['\n'] + join_by(rl, seq!['\n']) + seq!['\n']);
    }
}

/// The day table is its lines joined with line breaks.
pub proof fn lemma_table_join(
    labels: Seq<Seq<char>>,
    slots: Seq<Seq<Seq<char>>>,
    min_len: int,
    hd: Seq<char>,
    vd: Seq<char>,
)
    ensures
        hours_table(labels, slots, min_len, hd, vd) == join_by(
            table_lines(labels, slots, min_len, hd, vd),
            seq!['\n'],
        ),
{
    let width = table_width(slots, min_len);
    let rows = (tallest(slots) + 1) as nat;
    let n = labels.len();
    let ruler = repeat_text(seq!['-'], (width + 2) as nat);
    if n == 0 {
        assert(table_lines(labels, slots, min_len, hd, vd) =~= seq![ruler]);
        assert(hours_table(labels, slots, min_len, hd, vd) =~= ruler);
    } else {
        lemma_rows_join(labels, slots, n, rows, width, hd, vd);
        let rl = rows_lines(labels, slots, n, rows, width, hd, vd);
        lemma_join_push(rl, seq!['\n'], ruler);
        assert(hours_table(labels, slots, min_len, hd, vd) =~= join_by(rl, seq!['\n']) + seq!['\n']
            + ruler);
    }
}

/// The text does not hold the character `c`.
pub open spec fn free_of(s: Seq<char>, c: char) -> bool {
    forall|k: int| 0 <= k < s.len() ==> s[k] != c
}

proof fn lemma_repeat_free_of(s: Seq<char>, n: nat, c: char)
    requires
        free_of(s, c),
    ensures
        free_of(repeat_text(s, n), c),
    decreases n,
{
    if n > 0 {
        lemma_repeat_free_of(s, (n - 1) as nat, c);
        let r = repeat_text(s, (n - 1) as nat);
        assert forall|k: int| 0 <= k < repeat_text(s, n).len() implies repeat_text(s, n)[k] != c by {
            if k < r.len() {
                assert(repeat_text(s, n)[k] == r[k]);
            } else {
                assert(repeat_text(s, n)[k] == s[k - r.len()]);
            }
        }
    }
}

proof fn lemma_concat_free_of(a: Seq<char>, b: Seq<char>, c: char)
    requires
        free_of(a, c),
        free_of(b, c),
    ensures
        free_of(a + b, c),
{
    assert forall|k: int| 0 <= k < (a + b).len() implies (a + b)[k] != c by {
        if k < a.len() {
            assert((a + b)[k] == a[k]);
        } else {
            assert((a + b)[k] == b[k - a.len()]);
        }
    }
}

/// No time, task, filler or border of a day table holds `c`.
pub open spec fn table_parts_free_of(
    labels: Seq<Seq<char>>,
    slots: Seq<Seq<Seq<char>>>,
    hd: Seq<char>,
    vd: Seq<char>,
    c: char,
) -> bool {
    &&& forall|i: int| 0 <= i < labels.len() ==> free_of(#[trigger] labels[i], c)
    &&& forall|i: int, j: int|
        0 <= i < slots.len() && 0 <= j < slots[i].len() ==> free_of(#[trigger] slots[i][j], c)
    &&& free_of(hd, c)
    &&& free_of(vd, c)
}

proof fn lemma_rows_lines_free_of(
    labels: Seq<Seq<char>>,
    slots: Seq<Seq<Seq<char>>>,
    n: nat,
    rows: nat,
    width: int,
    hd: Seq<char>,
    vd: Seq<char>,
    c: char,
)
    requires
        n <= labels.len(),
        n <= slots.len(),
        c != ' ',
        table_parts_free_of(labels, slots, hd, vd, c),
    ensures
        forall|i: int|
            0 <= i < rows_lines(labels, slots, n, rows, width, hd, vd).len() ==> free_of(
                #[trigger] rows_lines(labels, slots, n, rows, width, hd, vd)[i],
                c,
            ),
    decreases n,
{
    if n > 0 {
        lemma_rows_lines_free_of(labels, slots, (n - 1) as nat, rows, width, hd, vd, c);
        let prev = rows_lines(labels, slots, (n - 1) as nat, rows, width, hd, vd);
        let label = labels[n - 1];
        let slot = slots[n - 1];
        let rl = row_lines(label, slot, rows, width, hd, vd);
        assert(free_of(label, c));
        lemma_repeat_free_of(hd, (width - str_len(label) + 2) as nat, c);
        lemma_concat_free_of(label, repeat_text(hd, (width - str_len(label) + 2) as nat), c);
        assert(free_of(seq![' '], c));
        assert forall|j: int| 0 <= j < rows implies free_of(#[trigger] cell_line(slot, j, width, vd), c) by {
            let inner = if j < slot.len() {
                cell_text(slot[j], width)
            } else {
                spaces(width as nat)
            };
            if j < slot.len() {
                assert(free_of(slot[j], c));
                if width - str_len(slot[j]) > 2 {
                    lemma_repeat_free_of(seq![' '], (width - str_len(slot[j])) as nat, c);
                    lemma_concat_free_of(slot[j], spaces((width - str_len(slot[j])) as nat), c);
                }
            } else {
                lemma_repeat_free_of(seq![' '], width as nat, c);
            }
            lemma_concat_free_of(vd, inner, c);
            lemma_concat_free_of(vd + inner, vd, c);
        }
        assert forall|i: int| 0 <= i < (prev + rl).len() implies free_of(#[trigger] (prev + rl)[i], c) by {
            if i < prev.len() {
                assert((prev + rl)[i] == prev[i]);
            } else if i == prev.len() {
                assert((prev + rl)[i] == head_text(label, width, hd));
            } else {
                assert((prev + rl)[i] == cell_line(slot, i - prev.len() - 1, width, vd));
            }
        }
    }
}

/// Every line of the day table is free of `c` when its parts are.
proof fn lemma_table_lines_free_of(
    labels: Seq<Seq<char>>,
    slots: Seq<Seq<Seq<char>>>,
    min_len: int,
    hd: Seq<char>,
    vd: Seq<char>,
    c: char,
)
    requires
        labels.len() <= slots.len(),
        c != ' ',
        c != '-',
        table_parts_free_of(labels, slots, hd, vd, c),
    ensures
        forall|i: int|
            0 <= i < table_lines(labels, slots, min_len, hd, vd).len() ==> free_of(
                #[trigger] table_lines(labels, slots, min_len, hd, vd)[i],
                c,
            ),
{
    let width = table_width(slots, min_len);
    let rows = (tallest(slots) + 1) as nat;
    let ruler = repeat_text(seq!['-'], (width + 2) as nat);
    let lines = table_lines(labels, slots, min_len, hd, vd);
    let rl = rows_lines(labels, slots, labels.len(), rows, width, hd, vd);
    lemma_rows_lines_free_of(labels, slots, labels.len(), rows, width, hd, vd, c);
    assert(free_of(seq!['-'], c));
    lemma_repeat_free_of(seq!['-'], (width + 2) as nat, c);
    assert forall|i: int| 0 <= i < lines.len() implies free_of(#[trigger] lines[i], c) by {
        if i < rl.len() {
            assert(lines[i] == rl[i]);
        } else {
            assert(lines[i] == ruler);
        }
    }
}

/// The lines of the first `n` rows: `rows + 1` for each, row `i`'s head at
/// `i * (rows + 1)`, its cell line `j` right after at `i * (rows + 1) + 1 + j`.
proof fn lemma_rows_lines_index(
    labels: Seq<Seq<char>>,
    slots: Seq<Seq<Seq<char>>>,
    n: nat,
    rows: nat,
    width: int,
    hd: Seq<char>,
    vd: Seq<char>,
)
    ensures
        rows_lines(labels, slots, n, rows, width, hd, vd).len() == n * (rows + 1),
        forall|i: int, j: int|
            0 <= i < n && 0 <= j <= rows ==> #[trigger] rows_lines(labels, slots, n, rows, width, hd, vd)[
                i * (rows + 1) + j] == row_lines(labels[i], slots[i], rows, width, hd, vd)[j],
    decreases n,
{
    if n > 0 {
        let m = (n - 1) as nat;
        lemma_rows_lines_index(labels, slots, m, rows, width, hd, vd);
        let prev = rows_lines(labels, slots, m, rows, width, hd, vd);
        let rl = row_lines(labels[m as int], slots[m as int], rows, width, hd, vd);
        let all = rows_lines(labels, slots, n, rows, width, hd, vd);
        assert(all == prev + rl);
        assert(rl.len() == rows + 1);
        assert(n * (rows + 1) == m * (rows + 1) + (rows + 1)) by (nonlinear_arith)
            requires n == m + 1;
        assert forall|i: int, j: int| 0 <= i < n && 0 <= j <= rows implies #[trigger] all[i * (rows
            + 1) + j] == row_lines(labels[i], slots[i], rows, width, hd, vd)[j] by {
            if i < m {
                assert(i * (rows + 1) + j < m * (rows + 1)) by (nonlinear_arith)
                    requires i < m, 0 <= j <= rows, 0 <= i;
                assert(0 <= i * (rows + 1)) by (nonlinear_arith) requires 0 <= i;
                assert(all[i * (rows + 1) + j] == prev[i * (rows + 1) + j]);
            } else {
                assert(i == m);
                assert(all[i * (rows + 1) + j] == rl[j]);
            }
        }
    } else {
        assert(n * (rows + 1) == 0) by (nonlinear_arith) requires n == 0;
    }
}

/// The day table, split at its line breaks, gives its lines: for each of its
/// `n` rows, `rows + 1` lines (the row's head at `i * (rows + 1)`, then its
/// cell lines), `rows` being one more than the fullest row has tasks, and
/// last the ruler; provided no time, task, filler or border holds a line
/// break. Read with `str::lines`, it gives the same lines where none of them
/// holds a carriage return either.
pub proof fn law_day_table_lines(
    labels: Seq<Seq<char>>,
    slots: Seq<Seq<Seq<char>>>,
    min_len: int,
    hd: Seq<char>,
    vd: Seq<char>,
)
    requires
        labels.len() <= slots.len(),
        min_len >= 0,
        table_parts_free_of(labels, slots, hd, vd, '\n'),
    ensures
        split_by(hours_table(labels, slots, min_len, hd, vd), seq!['\n']) == table_lines(
            labels,
            slots,
            min_len,
            hd,
            vd,
        ),
        table_lines(labels, slots, min_len, hd, vd).len() == labels.len() * (tallest(slots) + 2)
            + 1,
        forall|i: int|
            0 <= i < labels.len() ==> #[trigger] table_lines(labels, slots, min_len, hd, vd)[i * (
            tallest(slots) + 2)] == head_text(labels[i], table_width(slots, min_len), hd),
        forall|i: int, j: int|
            0 <= i < labels.len() && 0 <= j <= tallest(slots) ==> #[trigger] table_lines(
                labels,
                slots,
                min_len,
                hd,
                vd,
            )[i * (tallest(slots) + 2) + 1 + j] == cell_line(
                slots[i],
                j,
                table_width(slots, min_len),
                vd,
            ),
        table_lines(labels, slots, min_len, hd, vd).last() == repeat_text(
            seq!['-'],
            (table_width(slots, min_len) + 2) as nat,
        ),
        table_parts_free_of(labels, slots, hd, vd, '\r') ==> lines_of(
            hours_table(labels, slots, min_len, hd, vd),
        ) == table_lines(labels, slots, min_len, hd, vd),
{
    let width = table_width(slots, min_len);
    let rows = (tallest(slots) + 1) as nat;
    let ruler = repeat_text(seq!['-'], (width + 2) as nat);
    let lines = table_lines(labels, slots, min_len, hd, vd);
    let rl = rows_lines(labels, slots, labels.len(), rows, width, hd, vd);
    lemma_table_join(labels, slots, min_len, hd, vd);
    lemma_table_lines_free_of(labels, slots, min_len, hd, vd, '\n');
    assert forall|i: int, k: int| 0 <= i < lines.len() && 0 <= k < lines[i].len() implies lines[i][k]
        != '\n' by {
        assert(free_of(lines[i], '\n'));
    }
    lemma_split_join_single(lines, '\n');
    lemma_rows_lines_index(labels, slots, labels.len(), rows, width, hd, vd);
    assert(rows + 1 == tallest(slots) + 2);
    assert forall|i: int| 0 <= i < labels.len() implies #[trigger] lines[i * (tallest(slots) + 2)]
        == head_text(labels[i], width, hd) by {
        assert(rl[i * (rows + 1) + 0] == row_lines(labels[i], slots[i], rows, width, hd, vd)[0]);
        assert(0 <= i * (rows + 1) < labels.len() * (rows + 1)) by (nonlinear_arith)
            requires 0 <= i < labels.len();
        assert(lines[i * (rows + 1)] == rl[i * (rows + 1)]);
    }
    assert forall|i: int, j: int| 0 <= i < labels.len() && 0 <= j <= tallest(slots) implies #[trigger] lines[i
        * (tallest(slots) + 2) + 1 + j] == cell_line(slots[i], j, width, vd) by {
        assert(rl[i * (rows + 1) + (1 + j)] == row_lines(labels[i], slots[i], rows, width, hd, vd)[1
            + j]);
        assert(0 <= i * (rows + 1) + 1 + j < labels.len() * (rows + 1)) by (nonlinear_arith)
            requires 0 <= i < labels.len(), 0 <= j, j + 1 <= rows;
        assert(lines[i * (rows + 1) + 1 + j] == rl[i * (rows + 1) + 1 + j]);
    }
    lemma_dashes_len((width + 2) as nat);
    if table_parts_free_of(labels, slots, hd, vd, '\r') {
        lemma_table_lines_free_of(labels, slots, min_len, hd, vd, '\r');
        assert forall|i: int| 0 <= i < lines.len() implies strip_cr(#[trigger] lines[i]) == lines[i] by {
            assert(free_of(lines[i], '\r'));
            if lines[i].len() > 0 {
                assert(lines[i].last() == lines[i][lines[i].len() - 1]);
            }
        }
        assert(lines_of(hours_table(labels, slots, min_len, hd, vd)) =~= lines);
    }
}

proof fn lemma_dashes_len(n: nat)
    ensures
        repeat_text(seq!['-'], n).len() == n,
    decreases n,
{
    if n > 0 {
        lemma_dashes_len((n - 1) as nat);
    }
}

pub open spec fn string_lists(v: Seq<Vec<String>>) -> Seq<Seq<Seq<char>>> {
    v.map_values(|x: Vec<String>| strings(x@))
}

/// The greatest byte length among some strings.
fn longest_len(items: &Vec<String>) -> (n: usize)
    ensures
        n == longest(strings(items@)),
{
    let mut n: usize = 0;
    let mut i: usize = 0;
    while i < items.len()
        invariant
            i <= items.len(),
            n == longest(strings(items@).take(i as int)),
        decreases items.len() - i,
    {
        let k = items[i].as_str().len();
        assert(strings(items@).take(i + 1).drop_last() =~= strings(items@).take(i as int));
        assert(strings(items@).take(i + 1).last() == items@[i as int]@);
        if n < k {
            n = k;
        }
        i += 1;
    }
    assert(strings(items@).take(items.len() as int) =~= strings(items@));
    n
}

/// The widest task and the fullest row.
fn measure(slots: &Vec<Vec<String>>) -> (r: (usize, usize))
    ensures
        r.0 == widest(string_lists(slots@)),
        r.1 == tallest(string_lists(slots@)),
{
    let mut w: usize = 0;
    let mut t: usize = 0;
    let mut i: usize = 0;
    while i < slots.len()
        invariant
            i <= slots.len(),
            w == widest(string_lists(slots@).take(i as int)),
            t == tallest(string_lists(slots@).take(i as int)),
        decreases slots.len() - i,
    {
        let k = longest_len(&slots[i]);
        let h = slots[i].len();
        assert(string_lists(slots@).take(i + 1).drop_last() =~= string_lists(slots@).take(i as int));
        assert(string_lists(slots@).take(i + 1).last() == strings(slots@[i as int]@));
        if w < k {
            w = k;
        }
        if t < h {
            t = h;
        }
        i += 1;
    }
    assert(string_lists(slots@).take(slots.len() as int) =~= string_lists(slots@));
    (w, t)
}

/// Lays out the day table for rows with the given times (`labels`) and
/// tasks (`slots`), the cells at least `min_line_length` wide, `hd` after a
/// row's time and `vd` around the cells.
pub fn render_hours(
    labels: &Vec<String>,
    slots: &Vec<Vec<String>>,
    min_line_length: usize,
    hd: &String,
    vd: &String,
) -> (table: String)
    requires
        labels.len() == slots.len(),
        min_line_length <= usize::MAX - 2,
        widest(string_lists(slots@)) <= usize::MAX - 2,
        tallest(string_lists(slots@)) < usize::MAX,
        forall|i: int|
            0 <= i < labels.len() ==> str_len(#[trigger] labels@[i]@) <= table_width(
                string_lists(slots@),
                min_line_length as int,
            ),
    ensures
        table@ == hours_table(
            strings(labels@),
            string_lists(slots@),
            min_line_length as int,
            hd@,
            vd@,
        ),
{
    let ghost ls = strings(labels@);
    let ghost ss = string_lists(slots@);
    let (widest_task, fullest) = measure(slots);
    let width: usize = if widest_task < min_line_length {
        min_line_length
    } else {
        widest_task
    };
    let rows: usize = fullest + 1;
    let mut out = String::new();
    proof {
        reveal_strlit("\n");
        reveal_strlit(" ");
        reveal_strlit("-");
    }
    let mut i: usize = 0;
    while i < labels.len()
        invariant
            labels.len() == slots.len(),
            ls == strings(labels@),
            ss == string_lists(slots@),
            width == table_width(ss, min_line_length as int),
            width <= usize::MAX - 2,
            rows == tallest(ss) + 1,
            i <= labels.len(),
            forall|i: int|
                0 <= i < labels.len() ==> str_len(#[trigger] labels@[i]@) <= width,
            out@ == rows_text(ls, ss, i as nat, rows as nat, width as int, hd@, vd@),
            "\n"@ == seq!['\n'],
            " "@ == seq![' '],
        decreases labels.len() - i,
    {
        let label = &labels[i];
        let slot = &slots[i];
        let ghost before = out@;
        assert(ls[i as int] == label@);
        assert(ss[i as int] == strings(slot@));
        let label_len = label.as_str().len();
        assert(str_len(labels@[i as int]@) <= width);
        out.append(label.as_str());
        push_repeated(&mut out, hd.as_str(), width - label_len + 2);
        let ghost head = out@;
        assert(head == before + head_text(label@, width as int, hd@));
        let mut j: usize = 0;
        while j < rows
            invariant
                j <= rows,
                width <= usize::MAX - 2,
                out@ == head + lines_text(strings(slot@), j as nat, width as int, vd@),
                "\n"@ == seq!['\n'],
                " "@ == seq![' '],
            decreases rows - j,
        {
            let ghost line_start = out@;
            out.append("\n");
            out.append(vd.as_str());
            if j < slot.len() {
                let task = &slot[j];
                assert(strings(slot@)[j as int] == task@);
                let task_len = task.as_str().len();
                out.append(task.as_str());
                if width >= task_len && width - task_len > 2 {
                    push_repeated(&mut out, " ", width - task_len);
                }
                assert(width - str_len(task@) > 2 ==> width >= task_len);
            } else {
                push_repeated(&mut out, " ", width);
            }
            out.append(vd.as_str());
            assert(out@ =~= line_start + line_text(strings(slot@), j as int, width as int, vd@));
            j += 1;
        }
        out.append("\n");
        assert(out@ =~= before + row_text(label@, strings(slot@), rows as nat, width as int, hd@, vd@));
        i += 1;
    }
    proof {
        reveal_strlit("-");
    }
    assert("-"@ =~= seq!['-']);
    push_repeated(&mut out, "-", width + 2);
    assert(ls.len() == labels.len());
    out
}


/// The format in which due dates and chosen dates are written.
pub open spec fn due_format() -> Seq<char> {
    "%Y-%m-%d(%H:%M:%S)"@
}

/// The datetime that a date text written in `due_format()` stands for.
pub open spec fn date_secs(text: Seq<char>) -> Option<i64> {
    spec_parse_datetime(text, due_format())
}

/// The due date `days` days after the date `due`, written in `due_format()`;
/// none where `due` cannot be read, or the later datetime lies outside
/// chrono's range or cannot be written.
pub open spec fn due_after(due: Seq<char>, days: i32) -> Option<Seq<char>> {
    match date_secs(due) {
        None => None,
        Some(ts) => {
            let later = ts + days * 86400;
            if later < i64::MIN || later > i64::MAX || !spec_datetime_in_range(later as i64) {
                None
            } else {
                spec_format_datetime(later as i64, due_format())
            }
        },
    }
}

/// The due date `days` days after `due` (see `due_after`).
pub fn due_days_later(due: &String, days: i32) -> (r: Option<String>)
    ensures
        r.deep_view() == due_after(due@, days),
{
    let ts = match parse_datetime(due.as_str(), "%Y-%m-%d(%H:%M:%S)") {
        Some(ts) => ts,
        None => return None,
    };
    let shift: i64 = (days as i64) * 86400;
    if (shift > 0 && ts > i64::MAX - shift) || (shift < 0 && ts < i64::MIN - shift) {
        return None;
    }
    let later = ts + shift;
    if !datetime_in_range(later) {
        return None;
    }
    format_datetime(later, "%Y-%m-%d(%H:%M:%S)")
}

/// Moving a due date on by `days` days keeps its time of day: the result,
/// where there is one, is the datetime exactly `days * 86400` seconds after
/// the date `due` stands for, written in `due_format()`, so its day starts
/// `days` days after that of `due`; there is one wherever that datetime
/// lies within chrono's range and can be written, and none where `due`
/// cannot be read.
pub proof fn law_due_moves_by_whole_days(due: Seq<char>, days: i32)
    ensures
        date_secs(due) is None ==> due_after(due, days) is None,
        ({
            let later = date_secs(due).unwrap() + days * 86400int;
            date_secs(due) is Some && i64::MIN <= later <= i64::MAX && spec_datetime_in_range(
                later as i64,
            ) ==> due_after(due, days) == spec_format_datetime(later as i64, due_format())
        }),
        due_after(due, days) is Some ==> ({
            let ts = date_secs(due).unwrap() as int;
            let later = ts + days * 86400int;
            &&& spec_format_datetime(later as i64, due_format()) == due_after(due, days)
            &&& later % 86400 == ts % 86400
            &&& day_start(later) == day_start(ts) + days * 86400int
        }),
{
    if due_after(due, days) is Some {
        let ts = date_secs(due).unwrap() as int;
        let later = ts + days * 86400int;
        assert(later % 86400 == ts % 86400) by {
            vstd::arithmetic::div_mod::lemma_mod_multiples_vanish(days as int, ts, 86400int);
            assert(86400int * days + ts == later);
        }
    }
}

/// The number of rows of the day table: 24 divided by the hours per row
/// (24 where more are set), rounded down.
pub open spec fn row_count(hours: i32) -> int {
    24int / (if hours > 24 {
        24int
    } else {
        hours as int
    })
}

/// The seconds that one row of the day table spans: a day divided by the
/// number of rows (`24 / row_count` hours).
pub open spec fn row_span(hours: i32) -> int {
    86400int / row_count(hours)
}

/// The tasks, in database order, whose due date falls in `[from, to)`.
pub open spec fn tasks_between(db: Seq<(Seq<char>, Seq<char>)>, from: int, to: int) -> Seq<
    Seq<char>,
>
    decreases db.len(),
{
    if db.len() == 0 {
        seq![]
    } else {
        let rest = tasks_between(db.drop_last(), from, to);
        match date_secs(db.last().1) {
            Some(d) => if from <= d < to {
                rest.push(db.last().0)
            } else {
                rest
            },
            None => rest,
        }
    }
}

/// Every due date of the database can be read.
pub open spec fn dues_readable(db: Seq<(Seq<char>, Seq<char>)>) -> bool {
    forall|k: int| 0 <= k < db.len() ==> (#[trigger] date_secs(db[k].1)) is Some
}

/// The start of row `i` of the day table for the day that starts at `day`.
pub open spec fn row_start(day: int, hours: i32, i: int) -> int {
    day + i * row_span(hours)
}

/// The time text of row `i`.
pub open spec fn row_label(config: &Config, day: int, i: int) -> Option<Seq<char>> {
    spec_format_datetime(row_start(day, config.hours.hours, i) as i64, config.hours.text_format@)
}

/// The day table of the day that holds the date `chosen`, for the tasks
/// `db`: a row for each span of `hours` hours (see `row_count`), headed by
/// its time in `text_format`, holding the tasks due within its span. None
/// where the table cannot be made: the date or a due date cannot be read,
/// the day after the date lies outside chrono's range, a row's time cannot
/// be written, or a row's time is longer than the cell width.
pub open spec fn day_table(config: &Config, chosen: Seq<char>, db: Seq<(Seq<char>, Seq<char>)>) -> Option<
    Seq<char>,
> {
    match date_secs(chosen) {
        None => None,
        Some(ts) => {
            let n = row_count(config.hours.hours);
            let day = day_start(ts as int);
            if ts < i64::MIN + 86400 || ts > i64::MAX - 86400 || !spec_datetime_in_range(
                (ts + 86400) as i64,
            ) {
                None
            } else if !dues_readable(db) {
                None
            } else if exists|i: int| 0 <= i < n && (#[trigger] row_label(config, day, i)) is None {
                None
            } else {
                let labels = Seq::new(n as nat, |i: int| row_label(config, day, i).unwrap());
                let slots = Seq::new(
                    n as nat,
                    |i: int|
                        tasks_between(
                            db,
                            row_start(day, config.hours.hours, i),
                            row_start(day, config.hours.hours, i + 1),
                        ),
                );
                let min_len = config.hours.min_line_length as int;
                if exists|i: int|
                    0 <= i < n && str_len(#[trigger] labels[i]) > table_width(slots, min_len) {
                    None
                } else {
                    Some(
                        hours_table(
                            labels,
                            slots,
                            min_len,
                            config.hours.horizontal_divisor@,
                            config.hours.vertical_divisor@,
                        ),
                    )
                }
            }
        },
    }
}

/// The tasks due in a span are tasks of the database: no more of them, and
/// none longer than the database's longest.
proof fn lemma_between_bounded(db: Seq<(Seq<char>, Seq<char>)>, from: int, to: int, b: int)
    requires
        forall|k: int| 0 <= k < db.len() ==> str_len(#[trigger] db[k].0) <= b,
    ensures
        tasks_between(db, from, to).len() <= db.len(),
        forall|k: int|
            0 <= k < tasks_between(db, from, to).len() ==> str_len(
                #[trigger] tasks_between(db, from, to)[k],
            ) <= b,
    decreases db.len(),
{
    if db.len() > 0 {
        lemma_between_bounded(db.drop_last(), from, to, b);
        assert(str_len(db[db.len() - 1].0) <= b);
    }
}

proof fn lemma_longest_bounded(items: Seq<Seq<char>>, b: int)
    requires
        b >= 0,
        forall|k: int| 0 <= k < items.len() ==> str_len(#[trigger] items[k]) <= b,
    ensures
        longest(items) <= b,
    decreases items.len(),
{
    if items.len() > 0 {
        lemma_longest_bounded(items.drop_last(), b);
        assert(str_len(items[items.len() - 1]) <= b);
    }
}

proof fn lemma_slots_bounded(slots: Seq<Seq<Seq<char>>>, w: int, h: int)
    requires
        w >= 0,
        h >= 0,
        forall|i: int| 0 <= i < slots.len() ==> longest(#[trigger] slots[i]) <= w,
        forall|i: int| 0 <= i < slots.len() ==> (#[trigger] slots[i]).len() <= h,
    ensures
        widest(slots) <= w,
        tallest(slots) <= h,
    decreases slots.len(),
{
    if slots.len() > 0 {
        lemma_slots_bounded(slots.drop_last(), w, h);
        assert(longest(slots[slots.len() - 1]) <= w);
        assert(slots[slots.len() - 1].len() <= h);
    }
}

/// The rows of a day table hold no longer tasks, and no more of them, than
/// the database.
proof fn lemma_rows_bounded(db: Seq<(Seq<char>, Seq<char>)>, slots: Seq<Seq<Seq<char>>>, day: int, hours: i32)
    requires
        forall|k: int| 0 <= k < db.len() ==> str_len(#[trigger] db[k].0) <= usize::MAX - 2,
        forall|i: int|
            0 <= i < slots.len() ==> #[trigger] slots[i] == tasks_between(
                db,
                row_start(day, hours, i),
                row_start(day, hours, i + 1),
            ),
    ensures
        widest(slots) <= usize::MAX - 2,
        tallest(slots) <= db.len(),
{
    assert forall|i: int| 0 <= i < slots.len() implies longest(#[trigger] slots[i]) <= usize::MAX - 2
        && slots[i].len() <= db.len() by {
        lemma_between_bounded(db, row_start(day, hours, i), row_start(day, hours, i + 1), usize::MAX - 2);
        lemma_longest_bounded(slots[i], usize::MAX - 2);
    }
    lemma_slots_bounded(slots, usize::MAX - 2, db.len() as int);
}

/// The rows of the day table span the day exactly: `row_count` rows of
/// `row_span` seconds each make up its 86400 seconds.
pub proof fn lemma_rows_fill_day(hours: i32)
    requires
        hours >= 1,
    ensures
        row_count(hours) * row_span(hours) == 86400,
        1 <= row_count(hours) <= 24,
        row_span(hours) > 0,
{
    let h: int = if hours > 24 { 24 } else { hours as int };
    assert(row_count(hours) == 24int / h);
    let n: int = if h >= 13 {
        1
    } else if h >= 9 {
        2
    } else if h >= 7 {
        3
    } else if h >= 5 {
        4
    } else if h == 4 {
        6
    } else if h == 3 {
        8
    } else if h == 2 {
        12
    } else {
        24
    };
    assert(24int / h == n) by (nonlinear_arith)
        requires
            1 <= h <= 24,
            n == (if h >= 13 {
                1int
            } else if h >= 9 {
                2
            } else if h >= 7 {
                3
            } else if h >= 5 {
                4
            } else if h == 4 {
                6
            } else if h == 3 {
                8
            } else if h == 2 {
                12
            } else {
                24
            }),
    ;
    assert(row_span(hours) == 86400int / n);
    assert(n * (86400int / n) == 86400 && 86400int / n > 0 && 1 <= n <= 24) by (nonlinear_arith)
        requires
            n == 1 || n == 2 || n == 3 || n == 4 || n == 6 || n == 8 || n == 12 || n == 24,
    ;
    assert(row_count(hours) == n);
}

/// The moment `d` falls within the span of row `i` of the day table for the
/// day that starts at `day`.
pub open spec fn in_row(day: int, hours: i32, i: int, d: int) -> bool {
    row_start(day, hours, i) <= d < row_start(day, hours, i + 1)
}

/// Every moment of a day falls within exactly one row of its day table: a
/// task due that day stands in one row, and in no other.
pub proof fn law_rows_partition_day(hours: i32, day: int, d: int)
    requires
        hours >= 1,
        day <= d < day + 86400,
    ensures
        exists|i: int| 0 <= i < row_count(hours) && #[trigger] in_row(day, hours, i, d),
        forall|i: int, j: int|
            0 <= i < row_count(hours) && 0 <= j < row_count(hours) && #[trigger] in_row(day, hours, i, d)
                && #[trigger] in_row(day, hours, j, d) ==> i == j,
{
    lemma_rows_fill_day(hours);
    let n = row_count(hours);
    let span = row_span(hours);
    let off = d - day;
    let i = off / span;
    assert(0 <= i < n && i * span <= off < (i + 1) * span) by (nonlinear_arith)
        requires
            span > 0,
            n * span == 86400,
            0 <= off < 86400,
            i == off / span,
    ;
    assert(in_row(day, hours, i, d));
    assert forall|a: int, b: int|
        0 <= a < n && 0 <= b < n && #[trigger] in_row(day, hours, a, d) && #[trigger] in_row(day, hours, b, d)
            implies a == b by {
        assert(a * span <= off < (a + 1) * span);
        assert(b * span <= off < (b + 1) * span);
        if a < b {
            assert((a + 1) * span <= b * span) by (nonlinear_arith) requires a + 1 <= b, span > 0;
        } else if b < a {
            assert((b + 1) * span <= a * span) by (nonlinear_arith) requires b + 1 <= a, span > 0;
        }
    }
}

/// A task due outside `[from, to)` changes nothing of the tasks in that span,
/// wherever it stands in the database.
proof fn lemma_between_insert(
    db: Seq<(Seq<char>, Seq<char>)>,
    p: int,
    t: (Seq<char>, Seq<char>),
    from: int,
    to: int,
)
    requires
        0 <= p <= db.len(),
        match date_secs(t.1) {
            Some(d) => !(from <= d < to),
            None => true,
        },
    ensures
        tasks_between(db.insert(p, t), from, to) == tasks_between(db, from, to),
    decreases db.len(),
{
    let all = db.insert(p, t);
    if p == db.len() {
        assert(all.drop_last() =~= db);
        assert(all.last() == t);
    } else {
        assert(all.drop_last() =~= db.drop_last().insert(p, t));
        assert(all.last() == db.last());
        lemma_between_insert(db.drop_last(), p, t, from, to);
    }
}

/// Tasks due on other days change nothing of a day table: adding to the
/// database, anywhere, a task whose due date can be read and falls outside
/// the day that holds the chosen date leaves the day table as it was.
pub proof fn law_other_days_change_nothing(
    config: &Config,
    chosen: Seq<char>,
    db: Seq<(Seq<char>, Seq<char>)>,
    p: int,
    t: (Seq<char>, Seq<char>),
)
    requires
        config.hours.hours >= 1,
        0 <= p <= db.len(),
        date_secs(chosen) is Some,
        date_secs(t.1) is Some,
        date_secs(t.1).unwrap() < day_start(date_secs(chosen).unwrap() as int) || date_secs(
            t.1,
        ).unwrap() >= day_start(date_secs(chosen).unwrap() as int) + 86400,
    ensures
        day_table(config, chosen, db.insert(p, t)) == day_table(config, chosen, db),
{
    let ts = date_secs(chosen).unwrap();
    let day = day_start(ts as int);
    let h = config.hours.hours;
    let n = row_count(h);
    let db2 = db.insert(p, t);
    lemma_rows_fill_day(h);
    let span = row_span(h);
    assert forall|i: int| 0 <= i < n implies tasks_between(db2, #[trigger] row_start(day, h, i), row_start(day, h, i + 1))
        == tasks_between(db, row_start(day, h, i), row_start(day, h, i + 1)) by {
        assert(0 <= i * span && (i + 1) * span <= n * span) by (nonlinear_arith)
            requires 0 <= i < n, span > 0;
        assert(row_start(day, h, i + 1) == day + (i + 1) * span);
        lemma_between_insert(db, p, t, row_start(day, h, i), row_start(day, h, i + 1));
    }
    assert(dues_readable(db2) == dues_readable(db)) by {
        if dues_readable(db) {
            assert forall|k: int| 0 <= k < db2.len() implies (#[trigger] date_secs(db2[k].1)) is Some by {
                if k < p {
                    assert(db2[k] == db[k]);
                } else if k > p {
                    assert(db2[k] == db[k - 1]);
                }
            }
        }
        if dues_readable(db2) {
            assert forall|k: int| 0 <= k < db.len() implies (#[trigger] date_secs(db[k].1)) is Some by {
                if k < p {
                    assert(db2[k] == db[k]);
                } else {
                    assert(db2[k + 1] == db[k]);
                }
            }
        }
    }
    let slots1 = Seq::new(
        n as nat,
        |i: int| tasks_between(db, row_start(day, h, i), row_start(day, h, i + 1)),
    );
    let slots2 = Seq::new(
        n as nat,
        |i: int| tasks_between(db2, row_start(day, h, i), row_start(day, h, i + 1)),
    );
    assert(slots1 =~= slots2);
}

/// The tasks of lines with one more line inserted at `p`: the same, with
/// that line's task, if it holds one, after the tasks of the lines before
/// `p`.
proof fn lemma_lines_tasks_insert(lines: Seq<Seq<char>>, p: int, x: Seq<char>)
    requires
        0 <= p <= lines.len(),
    ensures
        lines_tasks(lines.take(p)).len() <= lines_tasks(lines).len(),
        lines_tasks(lines.insert(p, x)) == match line_task(x) {
            None => lines_tasks(lines),
            Some(t) => lines_tasks(lines).insert(lines_tasks(lines.take(p)).len() as int, t),
        },
    decreases lines.len(),
{
    let all = lines.insert(p, x);
    if p == lines.len() {
        assert(lines.take(p) =~= lines);
        assert(all.drop_last() =~= lines);
        assert(all.last() == x);
        match line_task(x) {
            None => {},
            Some(t) => {
                assert(lines_tasks(lines).insert(lines_tasks(lines).len() as int, t) =~= lines_tasks(
                    lines,
                ).push(t));
            },
        }
    } else {
        let dl = lines.drop_last();
        lemma_lines_tasks_insert(dl, p, x);
        assert(dl.take(p) =~= lines.take(p));
        assert(all.drop_last() =~= dl.insert(p, x));
        assert(all.last() == lines.last());
        let q = lines_tasks(lines.take(p)).len() as int;
        match line_task(x) {
            None => {},
            Some(t) => {
                match line_task(lines.last()) {
                    None => {},
                    Some(u) => {
                        assert(lines_tasks(dl).insert(q, t).push(u) =~= lines_tasks(dl).push(u).insert(
                            q,
                            t,
                        ));
                    },
                }
            },
        }
    }
}

/// A database line that holds no task, or a task due on another day,
/// changes nothing of the day table: inserting such a line anywhere among
/// the database's lines leaves the table as it was.
pub proof fn law_other_lines_change_nothing(
    config: &Config,
    chosen: Seq<char>,
    lines: Seq<Seq<char>>,
    p: int,
    x: Seq<char>,
)
    requires
        config.hours.hours >= 1,
        0 <= p <= lines.len(),
        date_secs(chosen) is Some,
        line_task(x) is Some ==> date_secs(line_task(x).unwrap().1) is Some && (date_secs(
            line_task(x).unwrap().1,
        ).unwrap() < day_start(date_secs(chosen).unwrap() as int) || date_secs(
            line_task(x).unwrap().1,
        ).unwrap() >= day_start(date_secs(chosen).unwrap() as int) + 86400),
    ensures
        day_table(config, chosen, lines_tasks(lines.insert(p, x))) == day_table(
            config,
            chosen,
            lines_tasks(lines),
        ),
{
    lemma_lines_tasks_insert(lines, p, x);
    match line_task(x) {
        None => {},
        Some(t) => {
            law_other_days_change_nothing(
                config,
                chosen,
                lines_tasks(lines),
                lines_tasks(lines.take(p)).len() as int,
                t,
            );
        },
    }
}

/// The tasks, in database order, whose due datetime in `dues` (one for each
/// task) falls in `[from, to)`.
pub open spec fn tasks_in_span(
    db: Seq<(Seq<char>, Seq<char>)>,
    dues: Seq<i64>,
    from: int,
    to: int,
) -> Seq<Seq<char>>
    decreases db.len(),
{
    if db.len() == 0 {
        seq![]
    } else {
        let rest = tasks_in_span(db.drop_last(), dues.drop_last(), from, to);
        if from <= dues.last() < to {
            rest.push(db.last().0)
        } else {
            rest
        }
    }
}

/// With the due datetimes read from the tasks' due dates, the tasks in a
/// span are those whose due date falls in it.
proof fn lemma_span_between(db: Seq<(Seq<char>, Seq<char>)>, dues: Seq<i64>, from: int, to: int)
    requires
        dues.len() == db.len(),
        forall|k: int| 0 <= k < db.len() ==> date_secs(#[trigger] db[k].1) == Some(dues[k]),
    ensures
        tasks_in_span(db, dues, from, to) == tasks_between(db, from, to),
    decreases db.len(),
{
    if db.len() > 0 {
        let n = db.len() - 1;
        assert(date_secs(db[n].1) == Some(dues[n]));
        assert forall|k: int| 0 <= k < db.drop_last().len() implies date_secs(
            #[trigger] db.drop_last()[k].1,
        ) == Some(dues.drop_last()[k]) by {
            assert(date_secs(db[k].1) == Some(dues[k]));
        }
        lemma_span_between(db.drop_last(), dues.drop_last(), from, to);
    }
}

/// The texts of the tasks of `database`, in order, whose due datetime in
/// `dues` (one for each task) falls in `[from, to)`.
pub fn tasks_due_between(database: &Vec<Task>, dues: &Vec<i64>, from: i64, to: i64) -> (r: Vec<String>)
    requires
        dues.len() == database.len(),
    ensures
        strings(r@) == tasks_in_span(task_views(database@), dues@, from as int, to as int),
{
    let mut r: Vec<String> = Vec::new();
    let mut k: usize = 0;
    while k < database.len()
        invariant
            k <= database.len(),
            dues.len() == database.len(),
            strings(r@) == tasks_in_span(
                task_views(database@).take(k as int),
                dues@.take(k as int),
                from as int,
                to as int,
            ),
        decreases database.len() - k,
    {
        let ghost db = task_views(database@);
        assert(db.take(k + 1).drop_last() =~= db.take(k as int));
        assert(dues@.take(k + 1).drop_last() =~= dues@.take(k as int));
        assert(db.take(k + 1).last() == database@[k as int]@);
        assert(dues@.take(k + 1).last() == dues@[k as int]);
        if from <= dues[k] && dues[k] < to {
            let ghost before = strings(r@);
            r.push(database[k].task.clone());
            assert(strings(r@) =~= before.push(database@[k as int].task@));
        }
        k += 1;
    }
    assert(task_views(database@).take(database.len() as int) =~= task_views(database@));
    assert(dues@.take(database.len() as int) =~= dues@);
    r
}

/// The day table of the day that holds `chosen_date` for the tasks of
/// `database` (see `day_table`); none where the table cannot be made.
#[verifier::loop_isolation(false)]
pub fn create_hours(config: &Config, chosen_date: &String, database: &Vec<Task>) -> (table: Option<String>)
    requires
        config.hours.hours >= 1,
        config.hours.min_line_length >= 0,
        database.len() < usize::MAX,
        forall|k: int| 0 <= k < database.len() ==> str_len(#[trigger] database@[k].task@) <= usize::MAX - 2,
    ensures
        table.deep_view() == day_table(config, chosen_date@, task_views(database@)),
{
    let ghost db = task_views(database@);
    assert forall|k: int| 0 <= k < db.len() implies str_len(#[trigger] db[k].0) <= usize::MAX - 2 by {
        assert(db[k].0 == database@[k].task@);
    }
    let ts = match parse_datetime(chosen_date.as_str(), "%Y-%m-%d(%H:%M:%S)") {
        Some(ts) => ts,
        None => return None,
    };
    if ts < i64::MIN + 86400 || ts > i64::MAX - 86400 {
        return None;
    }
    if !datetime_in_range(ts + 86400) {
        return None;
    }
    let mut dues: Vec<i64> = Vec::new();
    let mut k: usize = 0;
    while k < database.len()
        invariant
            k <= database.len(),
            dues.len() == k,
            db == task_views(database@),
            forall|j: int| 0 <= j < k ==> date_secs(#[trigger] database@[j].due@) == Some(dues@[j]),
        decreases database.len() - k,
    {
        match parse_datetime(database[k].due.as_str(), "%Y-%m-%d(%H:%M:%S)") {
            Some(d) => dues.push(d),
            None => {
                assert(db[k as int].1 == database@[k as int].due@);
                assert(!dues_readable(db));
                return None;
            },
        }
        k += 1;
    }
    assert forall|j: int| 0 <= j < db.len() implies (#[trigger] date_secs(db[j].1)) is Some by {
        assert(db[j].1 == database@[j].due@);
    }
    let day = start_of_day(ts);
    let hours: i32 = if config.hours.hours > 24 {
        24
    } else {
        config.hours.hours
    };
    assert(1 <= 24i32 / hours <= 24) by (nonlinear_arith)
        requires 1 <= hours <= 24;
    let n: i64 = (24 / hours) as i64;
    let span: i64 = 86400 / n;
    assert(n == row_count(config.hours.hours));
    assert(span == row_span(config.hours.hours));
    assert(1 <= n <= 24);
    assert(span * n <= 86400) by (nonlinear_arith)
        requires span == 86400i64 / n, n >= 1;
    let mut labels: Vec<String> = Vec::new();
    let mut slots: Vec<Vec<String>> = Vec::new();
    let mut i: i64 = 0;
    while i < n
        invariant
            0 <= i <= n,
            1 <= n <= 24,
            n == row_count(config.hours.hours),
            span == row_span(config.hours.hours),
            span * n <= 86400,
            span >= 0,
            day == day_start(ts as int),
            date_secs(chosen_date@) == Some(ts),
            spec_datetime_in_range((ts + 86400) as i64),
            dues_readable(db),
            ts >= i64::MIN + 86400,
            ts <= i64::MAX - 86400,
            labels.len() == i,
            slots.len() == i,
            db == task_views(database@),
            dues.len() == database.len(),
            forall|j: int| 0 <= j < dues.len() ==> date_secs(#[trigger] database@[j].due@) == Some(dues@[j]),
            forall|j: int| 0 <= j < i ==> row_label(config, day as int, j) == Some(#[trigger] labels@[j]@),
            forall|j: int|
                0 <= j < i ==> strings(#[trigger] slots@[j]@) == tasks_between(
                    db,
                    row_start(day as int, config.hours.hours, j),
                    row_start(day as int, config.hours.hours, j + 1),
                ),
        decreases n - i,
    {
        assert(i * span <= 86400 - span) by (nonlinear_arith)
            requires span * n <= 86400, i < n, span >= 0;
        let start = day + i * span;
        let end = start + span;
        assert(start == row_start(day as int, config.hours.hours, i as int));
        assert((i + 1) * span == i * span + span) by (nonlinear_arith);
        assert(end == row_start(day as int, config.hours.hours, i + 1));
        let label = match format_datetime(start, config.hours.text_format.as_str()) {
            Some(l) => l,
            None => {
                assert(row_label(config, day as int, i as int) is None);
                return None;
            },
        };
        let slot = tasks_due_between(database, &dues, start, end);
        proof {
            assert forall|k: int| 0 <= k < db.len() implies date_secs(#[trigger] db[k].1) == Some(dues@[k]) by {
                assert(db[k].1 == database@[k].due@);
            }
            lemma_span_between(db, dues@, start as int, end as int);
        }
        labels.push(label);
        slots.push(slot);
        i += 1;
    }
    let ghost ls = Seq::new(n as nat, |i: int| row_label(config, day as int, i).unwrap());
    let ghost ss = Seq::new(
        n as nat,
        |i: int|
            tasks_between(
                db,
                row_start(day as int, config.hours.hours, i),
                row_start(day as int, config.hours.hours, i + 1),
            ),
    );
    assert forall|i: int| 0 <= i < n implies (#[trigger] row_label(config, day as int, i)) is Some by {
        assert(row_label(config, day as int, i) == Some(labels@[i]@));
    }
    assert(!(exists|i: int| 0 <= i < n && (#[trigger] row_label(config, day as int, i)) is None));
    assert(strings(labels@) =~= ls);
    assert(string_lists(slots@) =~= ss);
    proof {
        lemma_rows_bounded(db, ss, day as int, config.hours.hours);
    }
    let (widest_task, fullest) = measure(&slots);
    let min_len: usize = config.hours.min_line_length as usize;
    assert(min_len <= usize::MAX - 2);
    let width: usize = if widest_task < min_len {
        min_len
    } else {
        widest_task
    };
    let mut j: usize = 0;
    while j < labels.len()
        invariant
            j <= labels.len(),
            width <= usize::MAX - 2,
            width == table_width(ss, min_len as int),
            strings(labels@) == ls,
            forall|i: int| 0 <= i < j ==> str_len(#[trigger] labels@[i]@) <= width,
        decreases labels.len() - j,
    {
        if labels[j].as_str().len() > width {
            assert(str_len(ls[j as int]) > table_width(ss, min_len as int));
            return None;
        }
        j += 1;
    }
    assert(!(exists|i: int| 0 <= i < n && str_len(#[trigger] ls[i]) > table_width(ss, min_len as int))) by {
        assert forall|i: int| 0 <= i < n implies str_len(#[trigger] ls[i]) <= table_width(ss, min_len as int) by {
            assert(ls[i] == labels@[i]@);
        }
    }
    Some(render_hours(&labels, &slots, min_len, &config.hours.horizontal_divisor, &config.hours.vertical_divisor))
}


/// The day of the week of `secs` as the week is counted: from Monday or from
/// Sunday.
pub open spec fn week_position(config: &Config, secs: int) -> int {
    if config.week.starts_on_monday {
        weekday_from_monday(secs)
    } else {
        weekday_from_sunday(secs)
    }
}

/// The datetime of column `k` of the week table for the chosen datetime
/// `ts`: `k - position - 1` days from it.
pub open spec fn week_day_secs(config: &Config, ts: int, k: int) -> int {
    ts + (k - week_position(config, ts) - 1) * 86400
}

/// One day of the week table: the day's name in the week's format and that
/// day's table. None where the day lies outside chrono's range, its date or
/// name cannot be written, its table cannot be made, or its name is longer
/// than its table's first line.
pub open spec fn week_entry(config: &Config, db: Seq<(Seq<char>, Seq<char>)>, secs: int) -> Option<
    (Seq<char>, Seq<char>),
> {
    if !spec_datetime_in_range(secs as i64) {
        None
    } else {
        match spec_format_datetime(secs as i64, due_format()) {
            None => None,
            Some(date) => match day_table(config, date, db) {
                None => None,
                Some(table) => match spec_format_datetime(secs as i64, config.week.text_format@) {
                    None => None,
                    Some(name) => if str_len(name) > str_len(split_by(table, newline())[0]) {
                        None
                    } else {
                        Some((name, table))
                    },
                },
            },
        }
    }
}

/// The head of one day of the week table: its name, filler up to the width
/// of its table's first line, and, when the days stand one below the other,
/// the table on lines of its own.
pub open spec fn week_head(config: &Config, entry: (Seq<char>, Seq<char>)) -> Seq<char> {
    let first = split_by(entry.1, newline())[0];
    let head = entry.0 + repeat_text(
        config.week.horizontal_divisor@,
        (str_len(first) - str_len(entry.0)) as nat,
    );
    if config.week.show_vertically {
        head + seq!['\n'] + entry.1 + seq!['\n']
    } else {
        head
    }
}

/// The heads of the first `n` days.
pub open spec fn week_heads(config: &Config, entries: Seq<(Seq<char>, Seq<char>)>, n: nat) -> Seq<
    char,
>
    decreases n,
{
    if n == 0 {
        seq![]
    } else {
        week_heads(config, entries, (n - 1) as nat) + week_head(config, entries[n - 1])
    }
}

/// Line `i` of a day in the columns: the table's line `i`, or `pad` spaces
/// where the table has fewer lines.
pub open spec fn column_cell(lines: Seq<Seq<char>>, i: int, pad: nat) -> Seq<char> {
    if i < lines.len() {
        lines[i]
    } else {
        spaces(pad)
    }
}

/// Line `i` of the first `n` days, side by side.
pub open spec fn column_line(days: Seq<Seq<Seq<char>>>, i: int, pad: nat, n: nat) -> Seq<char>
    decreases n,
{
    if n == 0 {
        seq![]
    } else {
        column_line(days, i, pad, (n - 1) as nat) + column_cell(days[n - 1], i, pad)
    }
}

/// The first `m` lines of the days side by side, each closed by a line
/// break.
pub open spec fn column_lines(days: Seq<Seq<Seq<char>>>, m: nat, pad: nat) -> Seq<char>
    decreases m,
{
    if m == 0 {
        seq![]
    } else {
        column_lines(days, (m - 1) as nat, pad) + column_line(days, m - 1, pad, days.len())
            + seq!['\n']
    }
}

/// The greatest number of lines among the days.
pub open spec fn most_lines(days: Seq<Seq<Seq<char>>>) -> int
    decreases days.len(),
{
    if days.len() == 0 {
        0
    } else {
        let rest = most_lines(days.drop_last());
        if rest < days.last().len() {
            days.last().len() as int
        } else {
            rest
        }
    }
}

/// The week table around the date `chosen`: for seven days, from one day
/// before the start of the week (Monday or Sunday) that holds `chosen`,
/// each day's name and, one below the other or side by side, its day table.
/// None where the date cannot be read, lies within a week of the ends of the
/// `i64` range, or a day cannot be made (see `week_entry`).
pub open spec fn week_table(config: &Config, chosen: Seq<char>, db: Seq<(Seq<char>, Seq<char>)>) -> Option<
    Seq<char>,
> {
    match date_secs(chosen) {
        None => None,
        Some(ts) => if ts < i64::MIN + 604800 || ts > i64::MAX - 604800 {
            None
        } else if exists|k: int|
            0 <= k < 7 && (#[trigger] week_entry(config, db, week_day_secs(config, ts as int, k)))
                is None {
            None
        } else {
            let entries = Seq::new(
                7,
                |k: int| week_entry(config, db, week_day_secs(config, ts as int, k)).unwrap(),
            );
            Some(week_layout(config, entries))
        },
    }
}

/// The week table for its seven days, each a name and a day table: the
/// names, each followed by filler up to the width of its table, and, one
/// below the other, each table under its name, or, side by side, the
/// tables' lines in columns.
pub open spec fn week_layout(config: &Config, entries: Seq<(Seq<char>, Seq<char>)>) -> Seq<char> {
    let heads = week_heads(config, entries, 7);
    if config.week.show_vertically {
        heads
    } else {
        let days = Seq::new(7, |k: int| split_by(entries[k].1, newline()));
        heads + seq!['\n'] + column_lines(
            days,
            most_lines(days) as nat,
            (config.hours.min_line_length + 2) as nat,
        )
    }
}

/// Two dates of the same week, at the same time of day, give the same week
/// table: its days are the same datetimes, since each lies as many days
/// from its date as the date lies after the start of the week.
pub proof fn law_same_week_same_table(
    config: &Config,
    c1: Seq<char>,
    c2: Seq<char>,
    t1: i64,
    t2: i64,
    db: Seq<(Seq<char>, Seq<char>)>,
)
    requires
        date_secs(c1) == Some(t1),
        date_secs(c2) == Some(t2),
        i64::MIN + 604800 <= t1 <= i64::MAX - 604800,
        i64::MIN + 604800 <= t2 <= i64::MAX - 604800,
        t1 % 86400 == t2 % 86400,
        day_start(t1 as int) - week_position(config, t1 as int) * 86400 == day_start(t2 as int)
            - week_position(config, t2 as int) * 86400,
    ensures
        week_table(config, c1, db) == week_table(config, c2, db),
{
    assert forall|k: int| #[trigger] week_day_secs(config, t1 as int, k) == week_day_secs(
        config,
        t2 as int,
        k,
    ) by {
        assert(week_day_secs(config, t1 as int, k) == t1 - week_position(config, t1 as int) * 86400
            + (k - 1) * 86400) by (nonlinear_arith);
        assert(week_day_secs(config, t2 as int, k) == t2 - week_position(config, t2 as int) * 86400
            + (k - 1) * 86400) by (nonlinear_arith);
    }
    assert forall|k: int| #[trigger] week_entry(config, db, week_day_secs(config, t1 as int, k))
        == week_entry(config, db, week_day_secs(config, t2 as int, k)) by {
        assert(week_day_secs(config, t1 as int, k) == week_day_secs(config, t2 as int, k));
    }
    let e1 = Seq::new(7, |k: int| week_entry(config, db, week_day_secs(config, t1 as int, k)).unwrap());
    let e2 = Seq::new(7, |k: int| week_entry(config, db, week_day_secs(config, t2 as int, k)).unwrap());
    assert(e1 =~= e2);
    let missing1 = exists|k: int|
        0 <= k < 7 && (#[trigger] week_entry(config, db, week_day_secs(config, t1 as int, k))) is None;
    let missing2 = exists|k: int|
        0 <= k < 7 && (#[trigger] week_entry(config, db, week_day_secs(config, t2 as int, k))) is None;
    if missing1 {
        let k = choose|k: int|
            0 <= k < 7 && (#[trigger] week_entry(config, db, week_day_secs(config, t1 as int, k))) is None;
        assert(week_entry(config, db, week_day_secs(config, t2 as int, k)) is None);
        assert(missing2);
    }
    if missing2 {
        let k = choose|k: int|
            0 <= k < 7 && (#[trigger] week_entry(config, db, week_day_secs(config, t2 as int, k))) is None;
        assert(week_entry(config, db, week_day_secs(config, t1 as int, k)) is None);
        assert(missing1);
    }
    assert(missing1 == missing2);
}

/// Each column of the week table is one day, named and tabled from the same
/// datetime: column `k` (0 to 6) stands for the datetime `k - 1 - w` days
/// from the chosen one, where `w` is the chosen day's place in its week
/// (so column 1 is the first day of that week and column 0 the day before);
/// it is headed by that datetime's name in the week's format and holds the
/// day table of that datetime's date.
pub proof fn law_week_columns_are_their_days(
    config: &Config,
    chosen: Seq<char>,
    db: Seq<(Seq<char>, Seq<char>)>,
)
    requires
        week_table(config, chosen, db) is Some,
    ensures
        ({
            let ts = date_secs(chosen).unwrap() as int;
            let w = week_position(config, ts);
            week_table(config, chosen, db) == Some(
                week_layout(
                    config,
                    Seq::new(
                        7,
                        |k: int|
                            (
                                spec_format_datetime(
                                    (ts + (k - 1 - w) * 86400) as i64,
                                    config.week.text_format@,
                                ).unwrap(),
                                day_table(
                                    config,
                                    spec_format_datetime((ts + (k - 1 - w) * 86400) as i64, due_format()).unwrap(),
                                    db,
                                ).unwrap(),
                            ),
                    ),
                ),
            )
        }),
{
    let ts = date_secs(chosen).unwrap() as int;
    let w = week_position(config, ts);
    let entries = Seq::new(7, |k: int| week_entry(config, db, week_day_secs(config, ts, k)).unwrap());
    let days = Seq::new(
        7,
        |k: int|
            (
                spec_format_datetime((ts + (k - 1 - w) * 86400) as i64, config.week.text_format@).unwrap(),
                day_table(
                    config,
                    spec_format_datetime((ts + (k - 1 - w) * 86400) as i64, due_format()).unwrap(),
                    db,
                ).unwrap(),
            ),
    );
    assert forall|k: int| 0 <= k < 7 implies #[trigger] entries[k] == days[k] by {
        assert(week_day_secs(config, ts, k) == ts + (k - 1 - w) * 86400);
        assert(week_entry(config, db, week_day_secs(config, ts, k)) is Some);
    }
    assert(entries =~= days);
}

/// The columns of the week table run through one week day by day: column
/// `k` stands for a datetime at the chosen time of day whose place in its
/// week is `k - 1` (the last place, 6, for column 0), so column 1 is the
/// first day of the chosen week and the chosen date stands in column
/// `w + 1`.
pub proof fn law_week_columns_run_through_the_week(config: &Config, ts: int, k: int)
    requires
        0 <= k < 7,
    ensures
        ({
            let w = week_position(config, ts);
            let secs = ts + (k - 1 - w) * 86400;
            &&& week_position(config, secs) == (k + 6) % 7
            &&& secs % 86400 == ts % 86400
            &&& week_day_secs(config, ts, k) == secs
        }),
{
    let w = week_position(config, ts);
    let m = k - 1 - w;
    let secs = ts + m * 86400;
    let q = ts / 86400;
    let r = ts % 86400;
    vstd::arithmetic::div_mod::lemma_fundamental_div_mod(ts, 86400);
    assert(0 <= r < 86400);
    assert(secs == (q + m) * 86400 + r) by (nonlinear_arith)
        requires secs == ts + m * 86400, ts == 86400 * q + r;
    vstd::arithmetic::div_mod::lemma_fundamental_div_mod_converse(secs, 86400, q + m, r);
    let c: int = if config.week.starts_on_monday { 3 } else { 4 };
    assert(w == (q + c) % 7);
    let t = (q + c) / 7;
    vstd::arithmetic::div_mod::lemma_fundamental_div_mod(q + c, 7);
    assert(0 <= w < 7);
    assert(secs / 86400 + c == (q + c) - w + (k - 1));
    assert((q + c) - w == 7 * t);
    assert(week_position(config, secs) == (secs / 86400 + c) % 7);
    if k >= 1 {
        vstd::arithmetic::div_mod::lemma_fundamental_div_mod_converse(7 * t + (k - 1), 7, t, k - 1);
    } else {
        assert(7 * t + (k - 1) == (t - 1) * 7 + 6);
        vstd::arithmetic::div_mod::lemma_fundamental_div_mod_converse(7 * t + (k - 1), 7, t - 1, 6);
    }
}

/// The heads of the first `n` days do not change when a day is added.
proof fn lemma_week_heads_push(
    config: &Config,
    entries: Seq<(Seq<char>, Seq<char>)>,
    e: (Seq<char>, Seq<char>),
    n: nat,
)
    requires
        n <= entries.len(),
    ensures
        week_heads(config, entries.push(e), n) == week_heads(config, entries, n),
    decreases n,
{
    if n > 0 {
        lemma_week_heads_push(config, entries, e, (n - 1) as nat);
        assert(entries.push(e)[n - 1] == entries[n - 1]);
    }
}

/// One day of the week table: its name, its table, and the table's lines;
/// none where `week_entry` has none.
fn week_day(config: &Config, database: &Vec<Task>, secs: i64) -> (r: Option<(String, String, Vec<Vec<char>>)>)
    requires
        config.hours.hours >= 1,
        config.hours.min_line_length >= 0,
        database.len() < usize::MAX,
        forall|k: int| 0 <= k < database.len() ==> str_len(#[trigger] database@[k].task@) <= usize::MAX - 2,
    ensures
        match r {
            Some((name, day, lines)) => {
                &&& week_entry(config, task_views(database@), secs as int) == Some((name@, day@))
                &&& texts(lines@) == split_by(day@, newline())
            },
            None => week_entry(config, task_views(database@), secs as int) is None,
        },
{
    if !datetime_in_range(secs) {
        return None;
    }
    let date = match format_datetime(secs, "%Y-%m-%d(%H:%M:%S)") {
        Some(d) => d,
        None => return None,
    };
    let day = match create_hours(config, &date, database) {
        Some(t) => t,
        None => return None,
    };
    let name = match format_datetime(secs, config.week.text_format.as_str()) {
        Some(n) => n,
        None => return None,
    };
    let day_chars = chars_of(day.as_str());
    let nl: Vec<char> = vec!['\n'];
    assert(nl@ =~= newline());
    let lines = split_text(&day_chars, &nl);
    proof {
        lemma_split_from_nonempty(day@, newline(), 0, 0);
    }
    let first_len = text_len(&lines[0]);
    assert(texts(lines@)[0] == lines@[0]@);
    if name.as_str().len() > first_len {
        return None;
    }
    Some((name, day, lines))
}

/// Appends the first `most` lines of the days side by side.
fn push_columns(week: &mut String, days: &Vec<Vec<Vec<char>>>, most: usize, pad: usize)
    ensures
        final(week)@ == old(week)@ + column_lines(
            Seq::new(days.len() as nat, |j: int| texts(days@[j]@)),
            most as nat,
            pad as nat,
        ),
{
    let ghost daysv = Seq::new(days.len() as nat, |j: int| texts(days@[j]@));
    let ghost start = week@;
    proof {
        reveal_strlit(" ");
        reveal_strlit("\n");
    }
    let mut i: usize = 0;
    while i < most
        invariant
            i <= most,
            daysv == Seq::new(days.len() as nat, |j: int| texts(days@[j]@)),
            week@ == start + column_lines(daysv, i as nat, pad as nat),
            " "@ == seq![' '],
            "\n"@ == seq!['\n'],
        decreases most - i,
    {
        let ghost line_start = week@;
        let mut j: usize = 0;
        while j < days.len()
            invariant
                j <= days.len(),
                daysv == Seq::new(days.len() as nat, |j: int| texts(days@[j]@)),
                week@ == line_start + column_line(daysv, i as int, pad as nat, j as nat),
                " "@ == seq![' '],
            decreases days.len() - j,
        {
            let ghost cell_start = week@;
            assert(daysv[j as int] == texts(days@[j as int]@));
            if days[j].len() > i {
                let line = string_of(&days[j][i]);
                assert(texts(days@[j as int]@)[i as int] == days@[j as int]@[i as int]@);
                week.append(line.as_str());
            } else {
                push_repeated(week, " ", pad);
            }
            assert(week@ =~= cell_start + column_cell(daysv[j as int], i as int, pad as nat));
            j += 1;
        }
        week.append("\n");
        assert(week@ =~= line_start + column_line(daysv, i as int, pad as nat, daysv.len())
            + seq!['\n']);
        i += 1;
    }
}

/// The week table around `chosen_date` for the tasks of `database` (see
/// `week_table`); none where it cannot be made.
pub fn create_week(config: &Config, chosen_date: &String, database: &Vec<Task>) -> (table: Option<String>)
    requires
        config.hours.hours >= 1,
        config.hours.min_line_length >= 0,
        database.len() < usize::MAX,
        forall|k: int| 0 <= k < database.len() ==> str_len(#[trigger] database@[k].task@) <= usize::MAX - 2,
    ensures
        table.deep_view() == week_table(config, chosen_date@, task_views(database@)),
{
    let ghost db = task_views(database@);
    let ts = match parse_datetime(chosen_date.as_str(), "%Y-%m-%d(%H:%M:%S)") {
        Some(ts) => ts,
        None => return None,
    };
    if ts < i64::MIN + 604800 || ts > i64::MAX - 604800 {
        return None;
    }
    let position = day_of_week(ts, config.week.starts_on_monday);
    assert(position == week_position(config, ts as int));
    let mut week = String::new();
    let mut days: Vec<Vec<Vec<char>>> = Vec::new();
    let mut most: usize = 0;
    let ghost mut entries: Seq<(Seq<char>, Seq<char>)> = seq![];
    let mut k: i64 = 0;
    while k < 7
        invariant
            0 <= k <= 7,
            config.hours.hours >= 1,
            config.hours.min_line_length >= 0,
            database.len() < usize::MAX,
            forall|k: int| 0 <= k < database.len() ==> str_len(#[trigger] database@[k].task@) <= usize::MAX - 2,
            db == task_views(database@),
            ts >= i64::MIN + 604800,
            ts <= i64::MAX - 604800,
            date_secs(chosen_date@) == Some(ts),
            position == week_position(config, ts as int),
            position < 7,
            entries.len() == k,
            days.len() == k,
            forall|j: int|
                0 <= j < k ==> Some(#[trigger] entries[j]) == week_entry(
                    config,
                    db,
                    week_day_secs(config, ts as int, j),
                ),
            forall|j: int| 0 <= j < k ==> texts(#[trigger] days@[j]@) == split_by(entries[j].1, newline()),
            !config.week.show_vertically ==> most == most_lines(
                Seq::new(k as nat, |j: int| texts(days@[j]@)),
            ),
            week@ == week_heads(config, entries, k as nat),
        decreases 7 - k,
    {
        let secs = ts + (k - position as i64 - 1) * 86400;
        assert(secs == week_day_secs(config, ts as int, k as int));
        let (name, day, lines) = match week_day(config, database, secs) {
            Some(r) => r,
            None => {
                assert(week_entry(config, db, week_day_secs(config, ts as int, k as int)) is None);
                return None;
            },
        };
        let ghost entry = (name@, day@);
        let ghost before = week@;
        proof {
            reveal_strlit("\n");
            lemma_split_from_nonempty(day@, newline(), 0, 0);
        }
        let first_len = text_len(&lines[0]);
        let name_len = name.as_str().len();
        assert(texts(lines@)[0] == lines@[0]@);
        week.append(name.as_str());
        push_repeated(&mut week, config.week.horizontal_divisor.as_str(), first_len - name_len);
        if config.week.show_vertically {
            week.append("\n");
            week.append(day.as_str());
            week.append("\n");
        } else {
            if most < lines.len() {
                most = lines.len();
            }
        }
        assert(week@ =~= before + week_head(config, entry));
        let ghost old_days = Seq::new(k as nat, |j: int| texts(days@[j]@));
        days.push(lines);
        proof {
            let new_days = Seq::new((k + 1) as nat, |j: int| texts(days@[j]@));
            assert(new_days.drop_last() =~= old_days);
            assert(new_days.last() == texts(lines@));
            lemma_week_heads_push(config, entries, entry, k as nat);
            entries = entries.push(entry);
        }
        k += 1;
    }
    let ghost spec_entries = Seq::new(
        7,
        |j: int| week_entry(config, db, week_day_secs(config, ts as int, j)).unwrap(),
    );
    assert forall|j: int| 0 <= j < 7 implies (#[trigger] week_entry(config, db, week_day_secs(config, ts as int, j))) is Some by {
        assert(Some(entries[j]) == week_entry(config, db, week_day_secs(config, ts as int, j)));
    }
    assert(entries =~= spec_entries);
    if config.week.show_vertically {
        return Some(week);
    }
    let ghost daysv = Seq::new(7, |j: int| texts(days@[j]@));
    assert(daysv =~= Seq::new(7, |j: int| split_by(spec_entries[j].1, newline())));
    let pad: usize = config.hours.min_line_length as usize + 2;
    proof {
        reveal_strlit("\n");
    }
    week.append("\n");
    push_columns(&mut week, &days, most, pad);
    Some(week)
}


/// The number of characters at the start of `r` that are the vertical
/// divisor `vd` (a one-character text) or a space.
pub open spec fn blank_count(r: Seq<char>, vd: Seq<char>) -> nat
    decreases r.len(),
{
    if r.len() > 0 && (vd == seq![r[0]] || r[0] == ' ') {
        1 + blank_count(r.drop_first(), vd)
    } else {
        0
    }
}

/// A cell's text with its borders and padding taken off, or none where the
/// byte slicing that takes them off falls inside a character: without the
/// first character when it is the first character of `vd`, then, read from
/// the end, without as many bytes as there are trailing characters that are
/// `vd` or a space.
pub open spec fn cell_content(line: Seq<char>, vd: Seq<char>) -> Option<Seq<char>> {
    let first = if vd.len() > 0 && line.len() > 0 && line[0] == vd[0] {
        if char_width(line[0]) == 1 {
            Some(line.drop_first())
        } else {
            None
        }
    } else {
        Some(line)
    };
    match first {
        None => None,
        Some(l) => {
            let r = l.reverse();
            match char_at_byte(r, blank_count(r, vd) as int) {
                None => None,
                Some(j) => Some(r.skip(j).reverse()),
            }
        },
    }
}

/// What one line of a day table gives: the datetime that later tasks are
/// due at, and a task if the line holds one; none where reading the line
/// fails. A line longer than the time format is read at its start as a time
/// (which sets the due datetime on the day that starts at `day`); failing
/// that, unless its start is filler, its content (see `cell_content`) is a
/// task if longer than two bytes.
pub open spec fn read_line(config: &Config, day: int, cur: i64, line: Seq<char>) -> Option<
    (i64, Option<(Seq<char>, Seq<char>)>),
> {
    let fmt = config.hours.text_format@;
    let n = str_len(fmt);
    if str_len(line) <= n {
        Some((cur, None))
    } else {
        match char_at_byte(line, n as int) {
            None => None,
            Some(j) => {
                let head = line.take(j);
                match spec_parse_time(head, fmt) {
                    Some((h, m, s)) => Some(((day + h * 3600 + m * 60 + s) as i64, None)),
                    None => if head == repeat_text(config.hours.horizontal_divisor@, n as nat) {
                        Some((cur, None))
                    } else {
                        match cell_content(line, config.hours.vertical_divisor@) {
                            None => None,
                            Some(t) => if str_len(t) > 2 {
                                match spec_format_datetime(cur, due_format()) {
                                    None => None,
                                    Some(due) => Some((cur, Some((t, due)))),
                                }
                            } else {
                                Some((cur, None))
                            },
                        }
                    },
                }
            },
        }
    }
}

/// The tasks that the lines give, read from the first with the due datetime
/// `cur`; none where reading a line fails.
pub open spec fn read_lines(config: &Config, day: int, cur: i64, lines: Seq<Seq<char>>) -> Option<
    Seq<(Seq<char>, Seq<char>)>,
>
    decreases lines.len(),
{
    if lines.len() == 0 {
        Some(seq![])
    } else {
        match read_line(config, day, cur, lines[0]) {
            None => None,
            Some((next, t)) => match read_lines(config, day, next, lines.drop_first()) {
                None => None,
                Some(rest) => Some(
                    match t {
                        Some(x) => seq![x] + rest,
                        None => rest,
                    },
                ),
            },
        }
    }
}

/// The tasks written in a day table `text` for the day that holds `chosen`,
/// each due at the time of the last row above it (midnight before the
/// first); none where the date cannot be read or lies within a day of the
/// ends of the `i64` range, or a line cannot be read (see `read_line`).
pub open spec fn table_tasks(config: &Config, chosen: Seq<char>, text: Seq<char>) -> Option<
    Seq<(Seq<char>, Seq<char>)>,
> {
    match date_secs(chosen) {
        None => None,
        Some(ts) => if ts < i64::MIN + 86400 || ts > i64::MAX - 86400 {
            None
        } else {
            let day = day_start(ts as int);
            read_lines(config, day, day as i64, lines_of(text))
        },
    }
}

/// Lines no longer than the time format are passed over: inserting such a
/// line anywhere among the lines of a day table changes nothing of what is
/// read from them.
pub proof fn law_short_lines_change_nothing(
    config: &Config,
    day: int,
    cur: i64,
    lines: Seq<Seq<char>>,
    p: int,
    x: Seq<char>,
)
    requires
        0 <= p <= lines.len(),
        str_len(x) <= str_len(config.hours.text_format@),
    ensures
        read_lines(config, day, cur, lines.insert(p, x)) == read_lines(config, day, cur, lines),
    decreases p,
{
    let all = lines.insert(p, x);
    assert(read_line(config, day, cur, x) == Some((cur, None::<(Seq<char>, Seq<char>)>)));
    if p == 0 {
        assert(all[0] == x);
        assert(all.drop_first() =~= lines);
    } else {
        assert(all[0] == lines[0]);
        assert(all.drop_first() =~= lines.drop_first().insert(p - 1, x));
        match read_line(config, day, cur, lines[0]) {
            None => {},
            Some((next, _)) => {
                law_short_lines_change_nothing(config, day, next, lines.drop_first(), p - 1, x);
            },
        }
    }
}

/// The trailing characters of `r` that are `vd` (one character) or a space.
fn count_blanks(r: &Vec<char>, vd: &Vec<char>) -> (n: usize)
    ensures
        n == blank_count(r@, vd@),
        n <= r.len(),
{
    let mut n: usize = 0;
    assert(r@.skip(0) =~= r@);
    while n < r.len() && ((vd.len() == 1 && vd[0] == r[n]) || r[n] == ' ')
        invariant
            n <= r.len(),
            blank_count(r@, vd@) == n + blank_count(r@.skip(n as int), vd@),
        decreases r.len() - n,
    {
        assert(r@.skip(n as int)[0] == r@[n as int]);
        assert(vd.len() == 1 && vd[0] == r[n as int] ==> vd@ =~= seq![r@[n as int]]);
        assert(r@.skip(n as int).drop_first() =~= r@.skip(n + 1));
        n += 1;
    }
    if n < r.len() {
        assert(r@.skip(n as int)[0] == r@[n as int]);
        assert(vd@ == seq![r@[n as int]] ==> vd.len() == 1 && vd@[0] == r@[n as int]);
    }
    n
}

/// The content of a cell line of a day table (see `cell_content`); none
/// where taking off its borders and padding would slice inside a character.
pub fn cell_content_of(line: &Vec<char>, vd: &Vec<char>) -> (r: Option<Vec<char>>)
    ensures
        match r {
            Some(c) => cell_content(line@, vd@) == Some(c@),
            None => cell_content(line@, vd@) is None,
        },
{
    let l: Vec<char> = if vd.len() > 0 && line.len() > 0 && line[0] == vd[0] {
        if width_of(line[0]) == 1 {
            slice_of(line, 1, line.len())
        } else {
            return None;
        }
    } else {
        slice_of(line, 0, line.len())
    };
    assert(line@.subrange(1, line.len() as int) =~= line@.drop_first());
    assert(line@.subrange(0, line.len() as int) =~= line@);
    let r = reversed(&l);
    let k = count_blanks(&r, vd);
    match char_index_at_byte(&r, k) {
        None => None,
        Some(j) => {
            let kept = slice_of(&r, j, r.len());
            assert(r@.subrange(j as int, r.len() as int) =~= r@.skip(j as int));
            Some(reversed(&kept))
        },
    }
}

proof fn lemma_spaces(k: nat)
    ensures
        spaces(k).len() == k,
        forall|i: int| 0 <= i < k ==> spaces(k)[i] == ' ',
    decreases k,
{
    if k > 0 {
        lemma_spaces((k - 1) as nat);
    }
}

proof fn lemma_blank_prefix(r: Seq<char>, m: int, vd: Seq<char>)
    requires
        0 <= m <= r.len(),
        forall|i: int| 0 <= i < m ==> vd == seq![r[i]] || r[i] == ' ',
        m < r.len() ==> !(vd == seq![r[m]] || r[m] == ' '),
    ensures
        blank_count(r, vd) == m,
    decreases m,
{
    if m > 0 {
        let s = r.drop_first();
        assert forall|i: int| 0 <= i < m - 1 implies vd == seq![s[i]] || s[i] == ' ' by {
            assert(s[i] == r[i + 1]);
        }
        if m < r.len() {
            assert(s[m - 1] == r[m]);
        }
        lemma_blank_prefix(s, m - 1, vd);
    } else {
        assert(r.len() > 0 ==> r[0] == r[m]);
    }
}

proof fn lemma_ascii_prefix(r: Seq<char>, m: int)
    requires
        0 <= m <= r.len(),
        forall|i: int| 0 <= i < m ==> (r[i] as u32) < 0x80,
    ensures
        char_at_byte(r, m) == Some(m),
    decreases m,
{
    if m > 0 {
        let s = r.drop_first();
        assert(char_width(r[0]) == 1);
        assert forall|i: int| 0 <= i < m - 1 implies (s[i] as u32) < 0x80 by {
            assert(s[i] == r[i + 1]);
        }
        lemma_ascii_prefix(s, m - 1);
    }
}

/// What a cell is read back as is the task written into it: the content of
/// a cell line of the day table, `vd`, the task in its cell, `vd`, is the
/// task, for a one-character `vd` that is ASCII and not a space, and a
/// non-empty task that neither begins with `vd` nor ends with `vd` or a
/// space.
pub proof fn law_cell_reads_back(task: Seq<char>, width: int, v: char)
    requires
        (v as u32) < 0x80,
        v != ' ',
        task.len() > 0,
        task[0] != v,
        task.last() != v,
        task.last() != ' ',
    ensures
        cell_content(seq![v] + cell_text(task, width) + seq![v], seq![v]) == Some(task),
{
    let k: nat = if width - str_len(task) > 2 {
        (width - str_len(task)) as nat
    } else {
        0
    };
    let sp = spaces(k);
    let m: int = 1 + k as int;
    lemma_spaces(k);
    if k == 0 {
        assert(sp =~= seq![]);
    }
    assert(cell_text(task, width) =~= task + sp);
    let line = seq![v] + task + sp + seq![v];
    assert(seq![v] + cell_text(task, width) + seq![v] =~= line);
    assert(line[0] == v);
    assert(char_width(v) == 1);
    let l = line.drop_first();
    assert(l =~= task + sp + seq![v]);
    let r = l.reverse();
    let front = seq![v] + sp;
    assert(r =~= front + task.reverse());
    assert forall|i: int| 0 <= i < m implies seq![v] == seq![r[i]] || r[i] == ' ' by {
        if i == 0 {
            assert(r[0] == v);
        } else {
            assert(r[i] == sp[i - 1]);
        }
    }
    assert(r[m] == task.last());
    if seq![v] == seq![r[m]] {
        assert(seq![v][0] == seq![r[m]][0]);
    }
    lemma_blank_prefix(r, m, seq![v]);
    assert forall|i: int| 0 <= i < m implies (r[i] as u32) < 0x80 by {
        if i == 0 {
        } else {
            assert(r[i] == sp[i - 1]);
        }
    }
    lemma_ascii_prefix(r, m);
    assert(r.skip(m) =~= task.reverse());
    assert(task.reverse().reverse() =~= task);
}

/// A cell line that holds no task reads as no text.
proof fn lemma_empty_cell_reads_nothing(width: int, v: char)
    requires
        (v as u32) < 0x80,
        v != ' ',
        width >= 0,
    ensures
        cell_content(seq![v] + spaces(width as nat) + seq![v], seq![v]) == Some(Seq::<char>::empty()),
{
    let sp = spaces(width as nat);
    lemma_spaces(width as nat);
    let line = seq![v] + sp + seq![v];
    assert(line[0] == v);
    assert(char_width(v) == 1);
    let l = line.drop_first();
    assert(l =~= sp + seq![v]);
    let r = l.reverse();
    let m: int = width + 1;
    assert(r.len() == m);
    assert forall|i: int| 0 <= i < m implies seq![v] == seq![r[i]] || r[i] == ' ' by {
        if i == 0 {
            assert(r[0] == v);
        } else {
            assert(r[i] == sp[width - i]);
        }
    }
    lemma_blank_prefix(r, m, seq![v]);
    assert forall|i: int| 0 <= i < m implies (r[i] as u32) < 0x80 by {
        if i == 0 {
            assert(r[0] == v);
        } else {
            assert(r[i] == sp[width - i]);
        }
    }
    lemma_ascii_prefix(r, m);
    assert(r.skip(m) =~= Seq::<char>::empty());
    assert(Seq::<char>::empty().reverse() =~= Seq::<char>::empty());
}

/// The due datetime that reading `lines` from `cur` leaves for the lines
/// after them: that of the last line read as a time.
pub open spec fn read_end(config: &Config, day: int, cur: i64, lines: Seq<Seq<char>>) -> i64
    decreases lines.len(),
{
    if lines.len() == 0 {
        cur
    } else {
        match read_line(config, day, cur, lines[0]) {
            None => cur,
            Some((next, _)) => read_end(config, day, next, lines.drop_first()),
        }
    }
}

/// Reading `a + b` reads `a`, then `b` from where `a` left off.
proof fn lemma_read_concat(
    config: &Config,
    day: int,
    cur: i64,
    a: Seq<Seq<char>>,
    b: Seq<Seq<char>>,
)
    ensures
        read_lines(config, day, cur, a + b) == match read_lines(config, day, cur, a) {
            None => None,
            Some(x) => after_prefix(x, read_lines(config, day, read_end(config, day, cur, a), b)),
        },
        read_lines(config, day, cur, a) is Some ==> read_end(config, day, cur, a + b) == read_end(
            config,
            day,
            read_end(config, day, cur, a),
            b,
        ),
    decreases a.len(),
{
    if a.len() == 0 {
        assert(a + b =~= b);
        match read_lines(config, day, cur, b) {
            None => {},
            Some(r) => {
                assert(Seq::<(Seq<char>, Seq<char>)>::empty() + r =~= r);
            },
        }
    } else {
        assert((a + b)[0] == a[0]);
        assert((a + b).drop_first() =~= a.drop_first() + b);
        match read_line(config, day, cur, a[0]) {
            None => {},
            Some((next, t)) => {
                lemma_read_concat(config, day, next, a.drop_first(), b);
                match read_lines(config, day, next, a.drop_first()) {
                    None => {},
                    Some(x) => {
                        match read_lines(config, day, read_end(config, day, next, a.drop_first()), b) {
                            None => {},
                            Some(r) => {
                                match t {
                                    Some(y) => {
                                        assert(seq![y] + (x + r) =~= (seq![y] + x) + r);
                                    },
                                    None => {},
                                }
                            },
                        }
                    },
                }
            },
        }
    }
}

/// The start of `line` that is read as a time in the format `fmt`: its
/// first `str_len(fmt)` bytes, where the line is longer than that and they
/// end at a character boundary.
pub open spec fn line_start(line: Seq<char>, fmt: Seq<char>) -> Option<Seq<char>> {
    if str_len(line) <= str_len(fmt) {
        None
    } else {
        match char_at_byte(line, str_len(fmt) as int) {
            None => None,
            Some(j) => Some(line.take(j)),
        }
    }
}

/// `line` is read as the time `secs` of the day that starts at `day`.
pub open spec fn reads_as_time(config: &Config, day: int, line: Seq<char>, secs: i64) -> bool {
    let fmt = config.hours.text_format@;
    match line_start(line, fmt) {
        Some(p) => match spec_parse_time(p, fmt) {
            Some((h, m, s)) => day + h * 3600 + m * 60 + s == secs,
            None => false,
        },
        None => false,
    }
}

/// `line` is read as a cell: its start is neither a time nor filler.
pub open spec fn reads_as_cell(config: &Config, line: Seq<char>) -> bool {
    let fmt = config.hours.text_format@;
    match line_start(line, fmt) {
        Some(p) => spec_parse_time(p, fmt) is None && p != repeat_text(
            config.hours.horizontal_divisor@,
            str_len(fmt) as nat,
        ),
        None => false,
    }
}

/// `line` is passed over: it is no longer than the time format, or its
/// start is filler and no time.
pub open spec fn reads_as_filler(config: &Config, line: Seq<char>) -> bool {
    let fmt = config.hours.text_format@;
    str_len(line) <= str_len(fmt) || match line_start(line, fmt) {
        Some(p) => spec_parse_time(p, fmt) is None && p == repeat_text(
            config.hours.horizontal_divisor@,
            str_len(fmt) as nat,
        ),
        None => false,
    }
}

/// The tasks of a row, each paired with the row's due text.
pub open spec fn dated_row(slot: Seq<Seq<char>>, due: Seq<char>) -> Seq<(Seq<char>, Seq<char>)> {
    Seq::new(slot.len(), |j: int| (slot[j], due))
}

/// The tasks of the first `n` rows, in order, each paired with its row's
/// due text.
pub open spec fn dated_tasks(slots: Seq<Seq<Seq<char>>>, dues: Seq<Seq<char>>, n: nat) -> Seq<
    (Seq<char>, Seq<char>),
>
    decreases n,
{
    if n == 0 {
        seq![]
    } else {
        dated_tasks(slots, dues, (n - 1) as nat) + dated_row(slots[n - 1], dues[n - 1])
    }
}

/// A task that is read back from its cell as it was written: not empty,
/// longer than two bytes, neither beginning with the border `v` nor ending
/// with it or a space.
pub open spec fn task_reads_back(task: Seq<char>, v: char) -> bool {
    &&& task.len() > 0
    &&& str_len(task) > 2
    &&& task[0] != v
    &&& task.last() != v
    &&& task.last() != ' '
}

/// The cell lines of a row are read as its tasks, all due at `due`.
proof fn lemma_read_cells(
    config: &Config,
    day: int,
    cur: i64,
    slot: Seq<Seq<char>>,
    k: nat,
    width: int,
    due: Seq<char>,
    v: char,
)
    requires
        config.hours.vertical_divisor@ == seq![v],
        (v as u32) < 0x80,
        v != ' ',
        width >= 0,
        slot.len() > 0 ==> spec_format_datetime(cur, due_format()) == Some(due),
        forall|j: int| 0 <= j < slot.len() ==> task_reads_back(#[trigger] slot[j], v),
        forall|j: int|
            0 <= j < k && j < slot.len() ==> reads_as_cell(
                config,
                #[trigger] cell_line(slot, j, width, seq![v]),
            ),
        forall|j: int|
            0 <= j < k && j >= slot.len() ==> str_len(#[trigger] cell_line(slot, j, width, seq![v]))
                <= str_len(config.hours.text_format@) || reads_as_cell(
                config,
                cell_line(slot, j, width, seq![v]),
            ),
    ensures
        read_lines(config, day, cur, Seq::new(k, |j: int| cell_line(slot, j, width, seq![v])))
            == Some(dated_row(slot.take(if k < slot.len() { k as int } else { slot.len() as int }), due)),
        read_end(config, day, cur, Seq::new(k, |j: int| cell_line(slot, j, width, seq![v]))) == cur,
    decreases k,
{
    let cells = Seq::new(k, |j: int| cell_line(slot, j, width, seq![v]));
    if k == 0 {
        assert(dated_row(slot.take(0), due) =~= seq![]);
    } else {
        let m = (k - 1) as nat;
        lemma_read_cells(config, day, cur, slot, m, width, due, v);
        let prev = Seq::new(m, |j: int| cell_line(slot, j, width, seq![v]));
        let line = cell_line(slot, m as int, width, seq![v]);
        assert(cells =~= prev + seq![line]);
        lemma_read_concat(config, day, cur, prev, seq![line]);
        let fmt = config.hours.text_format@;
        let before = dated_row(slot.take(if m < slot.len() { m as int } else { slot.len() as int }), due);
        if m < slot.len() {
            let t = slot[m as int];
            assert(task_reads_back(t, v));
            law_cell_reads_back(t, width, v);
            assert(line == seq![v] + cell_text(t, width) + seq![v]);
            assert(reads_as_cell(config, line));
            assert(read_line(config, day, cur, line) == Some((cur, Some((t, due)))));
            assert(read_lines(config, day, cur, Seq::<Seq<char>>::empty()) == Some(
                Seq::<(Seq<char>, Seq<char>)>::empty(),
            ));
            assert(seq![line].drop_first() =~= Seq::<Seq<char>>::empty());
            assert(read_lines(config, day, cur, seq![line]) == Some(seq![(t, due)]));
            assert(read_end(config, day, cur, Seq::<Seq<char>>::empty()) == cur);
            assert(read_end(config, day, cur, seq![line]) == cur);
            assert(before + seq![(t, due)] =~= dated_row(slot.take(k as int), due));
        } else {
            lemma_empty_cell_reads_nothing(width, v);
            assert(line == seq![v] + spaces(width as nat) + seq![v]);
            assert(str_len(Seq::<char>::empty()) == 0);
            assert(read_line(config, day, cur, line) == Some(
                (cur, None::<(Seq<char>, Seq<char>)>),
            ));
            assert(seq![line].drop_first() =~= Seq::<Seq<char>>::empty());
            assert(read_lines(config, day, cur, seq![line]) == Some(
                Seq::<(Seq<char>, Seq<char>)>::empty(),
            ));
            assert(read_end(config, day, cur, Seq::<Seq<char>>::empty()) == cur);
            assert(read_end(config, day, cur, seq![line]) == cur);
            assert(before + Seq::<(Seq<char>, Seq<char>)>::empty() =~= before);
        }
    }
}

/// A row of the day table is read as its tasks, all due at the time its
/// head reads as.
proof fn lemma_read_row(
    config: &Config,
    day: int,
    cur: i64,
    label: Seq<char>,
    slot: Seq<Seq<char>>,
    rows: nat,
    width: int,
    start: i64,
    due: Seq<char>,
    v: char,
)
    requires
        config.hours.vertical_divisor@ == seq![v],
        (v as u32) < 0x80,
        v != ' ',
        width >= 0,
        slot.len() <= rows,
        reads_as_time(config, day, head_text(label, width, config.hours.horizontal_divisor@), start),
        spec_format_datetime(start, due_format()) == Some(due),
        forall|j: int| 0 <= j < slot.len() ==> task_reads_back(#[trigger] slot[j], v),
        forall|j: int|
            0 <= j < slot.len() ==> reads_as_cell(config, #[trigger] cell_line(slot, j, width, seq![v])),
        forall|j: int|
            slot.len() <= j < rows ==> str_len(#[trigger] cell_line(slot, j, width, seq![v]))
                <= str_len(config.hours.text_format@) || reads_as_cell(
                config,
                cell_line(slot, j, width, seq![v]),
            ),
    ensures
        read_lines(
            config,
            day,
            cur,
            row_lines(label, slot, rows, width, config.hours.horizontal_divisor@, seq![v]),
        ) == Some(dated_row(slot, due)),
        read_end(
            config,
            day,
            cur,
            row_lines(label, slot, rows, width, config.hours.horizontal_divisor@, seq![v]),
        ) == start,
{
    let hd = config.hours.horizontal_divisor@;
    let head = head_text(label, width, hd);
    let cells = Seq::new(rows, |j: int| cell_line(slot, j, width, seq![v]));
    assert(row_lines(label, slot, rows, width, hd, seq![v]) == seq![head] + cells);
    lemma_read_concat(config, day, cur, seq![head], cells);
    assert(read_line(config, day, cur, head) == Some((start, None::<(Seq<char>, Seq<char>)>)));
    assert(seq![head].drop_first() =~= Seq::<Seq<char>>::empty());
    assert(read_lines(config, day, start, Seq::<Seq<char>>::empty()) == Some(
        Seq::<(Seq<char>, Seq<char>)>::empty(),
    ));
    assert(read_end(config, day, start, Seq::<Seq<char>>::empty()) == start);
    assert(read_lines(config, day, cur, seq![head]) == Some(Seq::<(Seq<char>, Seq<char>)>::empty()));
    assert(read_end(config, day, cur, seq![head]) == start);
    lemma_read_cells(config, day, start, slot, rows, width, due, v);
    assert(slot.take(slot.len() as int) =~= slot);
    assert(Seq::<(Seq<char>, Seq<char>)>::empty() + dated_row(slot, due) =~= dated_row(slot, due));
}

/// No row holds more tasks than the fullest.
proof fn lemma_tallest_bound(slots: Seq<Seq<Seq<char>>>)
    ensures
        forall|i: int| 0 <= i < slots.len() ==> (#[trigger] slots[i]).len() <= tallest(slots),
        tallest(slots) >= 0,
    decreases slots.len(),
{
    if slots.len() > 0 {
        lemma_tallest_bound(slots.drop_last());
        assert forall|i: int| 0 <= i < slots.len() implies (#[trigger] slots[i]).len() <= tallest(
            slots,
        ) by {
            if i < slots.len() - 1 {
                assert(slots[i] == slots.drop_last()[i]);
            }
        }
    }
}

/// What row `i` of a day table must hold to be read back: its head reads
/// as `start`, whose due text is `due`; each task reads back from its cell,
/// whose line reads as a cell; each empty cell line is passed over or reads
/// as a cell.
pub open spec fn row_reads_back(
    config: &Config,
    day: int,
    label: Seq<char>,
    slot: Seq<Seq<char>>,
    rows: nat,
    width: int,
    start: i64,
    due: Seq<char>,
    v: char,
) -> bool {
    &&& reads_as_time(config, day, head_text(label, width, config.hours.horizontal_divisor@), start)
    &&& spec_format_datetime(start, due_format()) == Some(due)
    &&& forall|j: int| 0 <= j < slot.len() ==> task_reads_back(#[trigger] slot[j], v)
    &&& forall|j: int|
        0 <= j < slot.len() ==> reads_as_cell(config, #[trigger] cell_line(slot, j, width, seq![v]))
    &&& forall|j: int|
        slot.len() <= j < rows ==> str_len(#[trigger] cell_line(slot, j, width, seq![v])) <= str_len(
            config.hours.text_format@,
        ) || reads_as_cell(config, cell_line(slot, j, width, seq![v]))
}

/// The first `n` rows of a day table are read as their tasks, in order.
proof fn lemma_read_rows(
    config: &Config,
    day: int,
    cur: i64,
    labels: Seq<Seq<char>>,
    slots: Seq<Seq<Seq<char>>>,
    n: nat,
    rows: nat,
    width: int,
    starts: Seq<i64>,
    dues: Seq<Seq<char>>,
    v: char,
)
    requires
        config.hours.vertical_divisor@ == seq![v],
        (v as u32) < 0x80,
        v != ' ',
        width >= 0,
        n <= labels.len(),
        n <= slots.len(),
        n <= starts.len(),
        n <= dues.len(),
        forall|i: int| 0 <= i < n ==> (#[trigger] slots[i]).len() <= rows,
        forall|i: int|
            0 <= i < n ==> row_reads_back(
                config,
                day,
                labels[i],
                #[trigger] slots[i],
                rows,
                width,
                starts[i],
                dues[i],
                v,
            ),
    ensures
        read_lines(
            config,
            day,
            cur,
            rows_lines(labels, slots, n, rows, width, config.hours.horizontal_divisor@, seq![v]),
        ) == Some(dated_tasks(slots, dues, n)),
        read_end(
            config,
            day,
            cur,
            rows_lines(labels, slots, n, rows, width, config.hours.horizontal_divisor@, seq![v]),
        ) == if n == 0 {
            cur
        } else {
            starts[n - 1]
        },
    decreases n,
{
    let hd = config.hours.horizontal_divisor@;
    if n == 0 {
        assert(read_end(config, day, cur, Seq::<Seq<char>>::empty()) == cur);
    } else {
        let m = (n - 1) as nat;
        lemma_read_rows(config, day, cur, labels, slots, m, rows, width, starts, dues, v);
        let prev = rows_lines(labels, slots, m, rows, width, hd, seq![v]);
        let row = row_lines(labels[m as int], slots[m as int], rows, width, hd, seq![v]);
        assert(rows_lines(labels, slots, n, rows, width, hd, seq![v]) == prev + row);
        lemma_read_concat(config, day, cur, prev, row);
        assert(row_reads_back(
            config,
            day,
            labels[m as int],
            slots[m as int],
            rows,
            width,
            starts[m as int],
            dues[m as int],
            v,
        ));
        lemma_read_row(
            config,
            day,
            read_end(config, day, cur, prev),
            labels[m as int],
            slots[m as int],
            rows,
            width,
            starts[m as int],
            dues[m as int],
            v,
        );
    }
}

/// A day table is read back as the tasks written into it, row by row, each
/// due at the time of its row: where each row's time reads back as the
/// row's start and the due text of that start can be written, where no
/// cell line reads as a time or as filler and the ruler does not read as a
/// cell, for a border `v` of one ASCII character other than a space, and
/// for tasks that are longer than two bytes, neither begin with `v` nor end
/// with `v` or a space.
pub proof fn law_day_table_reads_back(
    config: &Config,
    day: int,
    cur: i64,
    labels: Seq<Seq<char>>,
    slots: Seq<Seq<Seq<char>>>,
    starts: Seq<i64>,
    dues: Seq<Seq<char>>,
    v: char,
)
    requires
        labels.len() <= slots.len(),
        starts.len() == labels.len(),
        dues.len() == labels.len(),
        config.hours.min_line_length >= 0,
        config.hours.vertical_divisor@ == seq![v],
        (v as u32) < 0x80,
        v != ' ',
        forall|i: int|
            0 <= i < labels.len() ==> row_reads_back(
                config,
                day,
                labels[i],
                #[trigger] slots[i],
                (tallest(slots) + 1) as nat,
                table_width(slots, config.hours.min_line_length as int),
                starts[i],
                dues[i],
                v,
            ),
        reads_as_filler(
            config,
            repeat_text(seq!['-'], (table_width(slots, config.hours.min_line_length as int) + 2) as nat),
        ),
    ensures
        read_lines(
            config,
            day,
            cur,
            table_lines(
                labels,
                slots,
                config.hours.min_line_length as int,
                config.hours.horizontal_divisor@,
                config.hours.vertical_divisor@,
            ),
        ) == Some(dated_tasks(slots, dues, labels.len())),
{
    let hd = config.hours.horizontal_divisor@;
    let min_len = config.hours.min_line_length as int;
    let width = table_width(slots, min_len);
    let rows = (tallest(slots) + 1) as nat;
    let ruler = repeat_text(seq!['-'], (width + 2) as nat);
    let rl = rows_lines(labels, slots, labels.len(), rows, width, hd, seq![v]);
    lemma_tallest_bound(slots);
    assert forall|i: int| 0 <= i < labels.len() implies (#[trigger] slots[i]).len() <= rows by {}
    lemma_read_rows(config, day, cur, labels, slots, labels.len(), rows, width, starts, dues, v);
    assert(table_lines(labels, slots, min_len, hd, seq![v]) =~= rl + seq![ruler]);
    lemma_read_concat(config, day, cur, rl, seq![ruler]);
    let end = read_end(config, day, cur, rl);
    assert(read_line(config, day, end, ruler) == Some((end, None::<(Seq<char>, Seq<char>)>)));
    assert(seq![ruler].drop_first() =~= Seq::<Seq<char>>::empty());
    assert(read_lines(config, day, end, Seq::<Seq<char>>::empty()) == Some(
        Seq::<(Seq<char>, Seq<char>)>::empty(),
    ));
    assert(read_lines(config, day, end, seq![ruler]) == Some(Seq::<(Seq<char>, Seq<char>)>::empty()));
    assert(dated_tasks(slots, dues, labels.len()) + Seq::<(Seq<char>, Seq<char>)>::empty()
        =~= dated_tasks(slots, dues, labels.len()));
}

/// The times of the rows of the day table of the day that starts at `day`.
pub open spec fn day_labels(config: &Config, day: int) -> Seq<Seq<char>> {
    Seq::new(row_count(config.hours.hours) as nat, |i: int| row_label(config, day, i).unwrap())
}

/// The tasks of each row of the day table of the day that starts at `day`.
pub open spec fn day_slots(config: &Config, day: int, db: Seq<(Seq<char>, Seq<char>)>) -> Seq<
    Seq<Seq<char>>,
> {
    Seq::new(
        row_count(config.hours.hours) as nat,
        |i: int|
            tasks_between(
                db,
                row_start(day, config.hours.hours, i),
                row_start(day, config.hours.hours, i + 1),
            ),
    )
}

/// The start of each row of the day table of the day that starts at `day`.
pub open spec fn day_starts(config: &Config, day: int) -> Seq<i64> {
    Seq::new(
        row_count(config.hours.hours) as nat,
        |i: int| row_start(day, config.hours.hours, i) as i64,
    )
}

/// The start of each row of the day table of the day that starts at `day`,
/// written in `due_format()`.
pub open spec fn day_dues(config: &Config, day: int) -> Seq<Seq<char>> {
    Seq::new(
        row_count(config.hours.hours) as nat,
        |i: int| spec_format_datetime(row_start(day, config.hours.hours, i) as i64, due_format()).unwrap(),
    )
}

/// A day table that can be made is the table of its rows' times and tasks
/// (whose lines `law_day_table_lines` gives): row `i` is headed by the time
/// of its start and holds the tasks due within its span, in database order.
pub proof fn law_day_table_rows(config: &Config, chosen: Seq<char>, db: Seq<(Seq<char>, Seq<char>)>)
    requires
        day_table(config, chosen, db) is Some,
    ensures
        day_table(config, chosen, db) == Some(
            hours_table(
                day_labels(config, day_start(date_secs(chosen).unwrap() as int)),
                day_slots(config, day_start(date_secs(chosen).unwrap() as int), db),
                config.hours.min_line_length as int,
                config.hours.horizontal_divisor@,
                config.hours.vertical_divisor@,
            ),
        ),
{
    let day = day_start(date_secs(chosen).unwrap() as int);
    let n = row_count(config.hours.hours);
    assert(day_labels(config, day) =~= Seq::new(n as nat, |i: int| row_label(config, day, i).unwrap()));
}

/// The day table has a row for each span of the day that `hours` sets:
/// with `h` the smaller of `hours` and 24, `24 / h` rows, row `i` starting
/// `i * (86400 / (24 / h))` seconds after the day's midnight, headed by that
/// time in `text_format` and holding the tasks due within the row, in
/// database order.
pub proof fn law_day_table_follows_hours(
    config: &Config,
    chosen: Seq<char>,
    db: Seq<(Seq<char>, Seq<char>)>,
)
    requires
        config.hours.hours >= 1,
        day_table(config, chosen, db) is Some,
    ensures
        ({
            let day = day_start(date_secs(chosen).unwrap() as int);
            let c = 24int / (if config.hours.hours < 24 {
                config.hours.hours as int
            } else {
                24int
            });
            let s = 86400int / c;
            day_table(config, chosen, db) == Some(
                hours_table(
                    Seq::new(
                        c as nat,
                        |i: int|
                            spec_format_datetime((day + i * s) as i64, config.hours.text_format@).unwrap(),
                    ),
                    Seq::new(c as nat, |i: int| tasks_between(db, day + i * s, day + (i + 1) * s)),
                    config.hours.min_line_length as int,
                    config.hours.horizontal_divisor@,
                    config.hours.vertical_divisor@,
                ),
            )
        }),
{
    let day = day_start(date_secs(chosen).unwrap() as int);
    let hours = config.hours.hours;
    let c = 24int / (if hours < 24 { hours as int } else { 24int });
    let s = 86400int / c;
    law_day_table_rows(config, chosen, db);
    law_rows_follow_hours(hours, day, 0);
    assert forall|i: int| #[trigger] row_start(day, hours, i) == day + i * s by {
        law_rows_follow_hours(hours, day, i);
    }
    assert(day_labels(config, day) =~= Seq::new(
        c as nat,
        |i: int| spec_format_datetime((day + i * s) as i64, config.hours.text_format@).unwrap(),
    )) by {
        assert forall|i: int| 0 <= i < c implies #[trigger] day_labels(config, day)[i]
            == spec_format_datetime((day + i * s) as i64, config.hours.text_format@).unwrap() by {
            assert(row_start(day, hours, i) == day + i * s);
        }
    }
    assert(day_slots(config, day, db) =~= Seq::new(
        c as nat,
        |i: int| tasks_between(db, day + i * s, day + (i + 1) * s),
    )) by {
        assert forall|i: int| 0 <= i < c implies #[trigger] day_slots(config, day, db)[i]
            == tasks_between(db, day + i * s, day + (i + 1) * s) by {
            assert(row_start(day, hours, i) == day + i * s);
            assert(row_start(day, hours, i + 1) == day + (i + 1) * s);
        }
    }
}

/// What the day table of the day that starts at `day` must hold to be read
/// back (see `law_day_table_reads_back`), and that none of its times, tasks
/// or dividers holds a line break or a carriage return.
pub open spec fn day_reads_back(
    config: &Config,
    day: int,
    db: Seq<(Seq<char>, Seq<char>)>,
    v: char,
) -> bool {
    let labels = day_labels(config, day);
    let slots = day_slots(config, day, db);
    let hd = config.hours.horizontal_divisor@;
    let width = table_width(slots, config.hours.min_line_length as int);
    &&& table_parts_free_of(labels, slots, hd, seq![v], '\n')
    &&& table_parts_free_of(labels, slots, hd, seq![v], '\r')
    &&& forall|i: int|
        0 <= i < labels.len() ==> row_reads_back(
            config,
            day,
            labels[i],
            #[trigger] slots[i],
            (tallest(slots) + 1) as nat,
            width,
            day_starts(config, day)[i],
            day_dues(config, day)[i],
            v,
        )
    &&& reads_as_filler(config, repeat_text(seq!['-'], (width + 2) as nat))
}

/// A day table made by `create_hours` is read back by `read_hours` as the
/// chosen day's tasks, row by row and within a row in database order, each
/// due at the start of its row; where the table holds what
/// `day_reads_back` asks, for a border `v` of one ASCII character other
/// than a space.
pub proof fn law_created_day_reads_back(
    config: &Config,
    chosen: Seq<char>,
    db: Seq<(Seq<char>, Seq<char>)>,
    v: char,
)
    requires
        day_table(config, chosen, db) is Some,
        config.hours.min_line_length >= 0,
        config.hours.vertical_divisor@ == seq![v],
        (v as u32) < 0x80,
        v != ' ',
        day_reads_back(config, day_start(date_secs(chosen).unwrap() as int), db, v),
    ensures
        table_tasks(config, chosen, day_table(config, chosen, db).unwrap()) == Some(
            dated_tasks(
                day_slots(config, day_start(date_secs(chosen).unwrap() as int), db),
                day_dues(config, day_start(date_secs(chosen).unwrap() as int)),
                row_count(config.hours.hours) as nat,
            ),
        ),
{
    let ts = date_secs(chosen).unwrap();
    let day = day_start(ts as int);
    let labels = day_labels(config, day);
    let slots = day_slots(config, day, db);
    let hd = config.hours.horizontal_divisor@;
    let vd = config.hours.vertical_divisor@;
    let min_len = config.hours.min_line_length as int;
    let text = hours_table(labels, slots, min_len, hd, vd);
    law_day_table_rows(config, chosen, db);
    law_day_table_lines(labels, slots, min_len, hd, vd);
    assert(lines_of(text) == table_lines(labels, slots, min_len, hd, vd));
    law_day_table_reads_back(
        config,
        day,
        day as i64,
        labels,
        slots,
        day_starts(config, day),
        day_dues(config, day),
        v,
    );
}

/// `line` reads as some time of day in the format `fmt`.
pub open spec fn reads_some_time(config: &Config, line: Seq<char>) -> bool {
    match line_start(line, config.hours.text_format@) {
        Some(p) => spec_parse_time(p, config.hours.text_format@) is Some,
        None => false,
    }
}

/// Lines none of which reads as a time give tasks all due at `cur`, and
/// leave `cur` as it was.
proof fn lemma_read_without_times(config: &Config, day: int, cur: i64, lines: Seq<Seq<char>>)
    requires
        forall|i: int| 0 <= i < lines.len() ==> !reads_some_time(config, #[trigger] lines[i]),
    ensures
        read_lines(config, day, cur, lines) matches Some(p) ==> forall|j: int|
            0 <= j < p.len() ==> Some((#[trigger] p[j]).1) == spec_format_datetime(cur, due_format()),
        read_lines(config, day, cur, lines) is Some ==> read_end(config, day, cur, lines) == cur,
    decreases lines.len(),
{
    if lines.len() > 0 {
        let rest = lines.drop_first();
        assert forall|i: int| 0 <= i < rest.len() implies !reads_some_time(config, #[trigger] rest[i]) by {
            assert(rest[i] == lines[i + 1]);
        }
        assert(!reads_some_time(config, lines[0]));
        match read_line(config, day, cur, lines[0]) {
            None => {},
            Some((next, t)) => {
                assert(next == cur);
                lemma_read_without_times(config, day, cur, rest);
                match read_lines(config, day, cur, rest) {
                    None => {},
                    Some(q) => {
                        match t {
                            Some(x) => {
                                assert(Some(x.1) == spec_format_datetime(cur, due_format()));
                                let p = seq![x] + q;
                                assert forall|j: int| 0 <= j < p.len() implies Some((#[trigger] p[j]).1)
                                    == spec_format_datetime(cur, due_format()) by {
                                    if j > 0 {
                                        assert(p[j] == q[j - 1]);
                                    }
                                }
                            },
                            None => {},
                        }
                    },
                }
            },
        }
    }
}

/// Tasks written before the first line that reads as a time are due at
/// midnight at the start of the chosen day: when none of the first `k`
/// lines of a day table reads as a time, the tasks they hold come first
/// among those read back, each due at that midnight.
pub proof fn law_tasks_before_any_time_are_due_at_midnight(
    config: &Config,
    chosen: Seq<char>,
    text: Seq<char>,
    k: int,
)
    requires
        table_tasks(config, chosen, text) is Some,
        0 <= k <= lines_of(text).len(),
        forall|i: int| 0 <= i < k ==> !reads_some_time(config, #[trigger] lines_of(text)[i]),
    ensures
        ({
            let midnight = day_start(date_secs(chosen).unwrap() as int);
            let r = table_tasks(config, chosen, text).unwrap();
            read_lines(config, midnight, midnight as i64, lines_of(text).take(k)) matches Some(p) && p.len()
                <= r.len() && forall|j: int|
                0 <= j < p.len() ==> r[j] == p[j] && Some((#[trigger] r[j]).1) == spec_format_datetime(
                    midnight as i64,
                    due_format(),
                )
        }),
{
    let day = day_start(date_secs(chosen).unwrap() as int);
    let lines = lines_of(text);
    let a = lines.take(k);
    let b = lines.skip(k);
    assert(lines =~= a + b);
    lemma_read_concat(config, day, day as i64, a, b);
    assert forall|i: int| 0 <= i < a.len() implies !reads_some_time(config, #[trigger] a[i]) by {
        assert(a[i] == lines[i]);
    }
    lemma_read_without_times(config, day, day as i64, a);
    let p = read_lines(config, day, day as i64, a).unwrap();
    let q = read_lines(config, day, read_end(config, day, day as i64, a), b).unwrap();
    assert(table_tasks(config, chosen, text).unwrap() == p + q);
    assert forall|j: int| 0 <= j < p.len() implies (p + q)[j] == p[j] by {}
}

/// What one line of a day table gives (see `read_line`).
fn read_line_exec(config: &Config, day: i64, cur: i64, line: &Vec<char>) -> (r: Option<(i64, Option<Task>)>)
    requires
        day <= i64::MAX - 86400,
    ensures
        match r {
            None => read_line(config, day as int, cur, line@) is None,
            Some((next, None)) => read_line(config, day as int, cur, line@) == Some(
                (next, None::<(Seq<char>, Seq<char>)>),
            ),
            Some((next, Some(t))) => read_line(config, day as int, cur, line@) == Some(
                (next, Some(t@)),
            ),
        },
{
    let fmt = config.hours.text_format.as_str();
    let n = fmt.len();
    if text_len(line) <= n {
        return Some((cur, None));
    }
    let j = match char_index_at_byte(line, n) {
        None => return None,
        Some(j) => j,
    };
    let head_chars = slice_of(line, 0, j);
    assert(line@.subrange(0, j as int) =~= line@.take(j as int));
    let head = string_of(&head_chars);
    match parse_time(head.as_str(), fmt) {
        Some((h, m, s)) => {
            let next = day + (h as i64) * 3600 + (m as i64) * 60 + (s as i64);
            return Some((next, None));
        },
        None => {},
    }
    let hd_chars = chars_of(config.hours.horizontal_divisor.as_str());
    let mut filler: Vec<char> = Vec::new();
    let mut k: usize = 0;
    while k < n
        invariant
            k <= n,
            filler@ == repeat_text(hd_chars@, k as nat),
        decreases n - k,
    {
        let mut q: usize = 0;
        let ghost before = filler@;
        while q < hd_chars.len()
            invariant
                q <= hd_chars.len(),
                filler@ == before + hd_chars@.take(q as int),
            decreases hd_chars.len() - q,
        {
            filler.push(hd_chars[q]);
            assert(hd_chars@.take(q + 1) =~= hd_chars@.take(q as int).push(hd_chars@[q as int]));
            q += 1;
        }
        assert(hd_chars@.take(hd_chars.len() as int) =~= hd_chars@);
        k += 1;
    }
    if same_text(&head_chars, &filler) {
        return Some((cur, None));
    }
    let vd = chars_of(config.hours.vertical_divisor.as_str());
    let content = match cell_content_of(line, &vd) {
        None => return None,
        Some(c) => c,
    };
    if text_len(&content) > 2 {
        match format_datetime(cur, "%Y-%m-%d(%H:%M:%S)") {
            None => None,
            Some(due) => Some((cur, Some(Task { task: string_of(&content), due }))),
        }
    } else {
        Some((cur, None))
    }
}

/// `p` before the tasks that `o` holds, if it holds any.
pub open spec fn after_prefix(p: Seq<(Seq<char>, Seq<char>)>, o: Option<Seq<(Seq<char>, Seq<char>)>>) -> Option<
    Seq<(Seq<char>, Seq<char>)>,
> {
    match o {
        Some(r) => Some(p + r),
        None => None,
    }
}

/// The tasks written in the day table `day_text` for the day that holds
/// `chosen_date` (see `table_tasks`); none where they cannot be read.
#[verifier::loop_isolation(false)]
pub fn read_hours(config: &Config, chosen_date: &String, day_text: &String) -> (tasks: Option<Vec<Task>>)
    ensures
        match tasks {
            Some(v) => table_tasks(config, chosen_date@, day_text@) == Some(task_views(v@)),
            None => table_tasks(config, chosen_date@, day_text@) is None,
        },
{
    let ts = match parse_datetime(chosen_date.as_str(), "%Y-%m-%d(%H:%M:%S)") {
        Some(ts) => ts,
        None => return None,
    };
    if ts < i64::MIN + 86400 || ts > i64::MAX - 86400 {
        return None;
    }
    let day = start_of_day(ts);
    let text = chars_of(day_text.as_str());
    let lines = text_lines(&text);
    let ghost all = texts(lines@);
    let mut cur: i64 = day;
    let mut out: Vec<Task> = Vec::new();
    let mut i: usize = 0;
    assert(all.skip(0) =~= all);
    while i < lines.len()
        invariant
            i <= lines.len(),
            all == texts(lines@),
            day <= i64::MAX - 86400,
            read_lines(config, day as int, day, all) == after_prefix(
                task_views(out@),
                read_lines(config, day as int, cur, all.skip(i as int)),
            ),
        decreases lines.len() - i,
    {
        let ghost rest = all.skip(i as int);
        assert(rest[0] == lines@[i as int]@);
        assert(rest.drop_first() =~= all.skip(i + 1));
        let ghost before = task_views(out@);
        match read_line_exec(config, day, cur, &lines[i]) {
            None => return None,
            Some((next, t)) => {
                match t {
                    Some(task) => {
                        let ghost tv = task@;
                        out.push(task);
                        assert(task_views(out@) =~= before.push(tv));
                        assert forall|r: Seq<(Seq<char>, Seq<char>)>| true implies before + (seq![tv] + r) =~= before.push(tv) + r by {}
                    },
                    None => {},
                }
                cur = next;
            },
        }
        i += 1;
    }
    assert(all.skip(lines.len() as int) =~= seq![]);
    assert(task_views(out@) + seq![] =~= task_views(out@));
    Some(out)
}

/// Reading a week table back gives no tasks.
pub fn read_week(config: &Config, chosen_date: &String, day_text: &String) -> (tasks: Vec<Task>)
    ensures
        tasks@.len() == 0,
{
    Vec::new()
}

} // verus!
