use minitodo::config::{get_config_name, get_config_path, get_defaults};
use minitodo::files::{
    can_remove_from_database, database_with_task, database_without_task, parse_database, Config,
    Database, Hours, Task, Week,
};
use minitodo::clock::{day_of_week, start_of_day};
use minitodo::tables::{
    cell_content_of, create_hours, create_week, read_hours, read_week, render_hours,
    tasks_due_between,
};

fn config(hours: i32, min_line_length: i32, text_format: &str) -> Config {
    Config {
        hours: Hours {
            hours,
            text_format: text_format.to_string(),
            min_line_length,
            num_lines: 8,
            horizontal_divisor: "-".to_string(),
            vertical_divisor: "|".to_string(),
        },
        week: Week {
            starts_on_monday: true,
            horizontal_divisor: "-".to_string(),
            show_vertically: false,
            today_char: "*".to_string(),
            text_format: "%a".to_string(),
        },
        database: Database { path: "~/.local/minitodo".to_string(), filename: "todo.txt".to_string() },
    }
}

fn task(t: &str, d: &str) -> Task {
    Task { task: t.to_string(), due: d.to_string() }
}

fn pairs(v: &[Task]) -> Vec<(String, String)> {
    v.iter().map(|t| (t.task.clone(), t.due.clone())).collect()
}

#[test]
fn config_locations() {
    assert_eq!(get_config_path(), "~/.config/minitodo");
    assert_eq!(get_config_name(), "minitodo.conf");
}

#[test]
fn defaults_hold_every_setting() {
    let d = get_defaults();
    assert!(d.contains("[hours]\nhours = 2\n"));
    assert!(d.contains("show_vertically = false"));
    assert!(d.contains("filename = \"todo.txt\""));
}

#[test]
fn parse_database_reads_task_lines() {
    let content = "\nBuy milk due:2024-03-05(07:15:00)\nnot a task\nCall mom due:2024-03-05(08:00:00) due:x";
    let tasks = parse_database(content);
    assert_eq!(
        pairs(&tasks),
        vec![
            ("Buy milk".to_string(), "2024-03-05(07:15:00)".to_string()),
            ("Call mom".to_string(), "2024-03-05(08:00:00)".to_string()),
        ]
    );
}

#[test]
fn parse_database_of_empty_text_is_empty() {
    assert!(parse_database("").is_empty());
    assert!(parse_database("\n\n").is_empty());
}

#[test]
fn write_then_read_gives_the_task_back() {
    let before = "\nA due:2024-01-01(00:00:00)";
    let t = task("B", "2024-01-02(00:00:00)");
    let after = database_with_task(before, &t);
    assert_eq!(after, "\nA due:2024-01-01(00:00:00)\nB due:2024-01-02(00:00:00)");
    let mut expected = pairs(&parse_database(before));
    expected.push(("B".to_string(), "2024-01-02(00:00:00)".to_string()));
    assert_eq!(pairs(&parse_database(&after)), expected);
}

#[test]
fn remove_takes_out_the_line_at_the_task_index() {
    // The removal pass takes out the line whose index is the task's index
    // among the tasks.
    let content = "A due:1\nB due:2\nC due:3";
    assert!(can_remove_from_database(content, " B "));
    assert_eq!(database_without_task(content, " B "), "A due:1\nC due:3");
    let content = "\nA due:1\nB due:2";
    assert_eq!(database_without_task(content, "A"), "A due:1\nB due:2");
}

#[test]
fn remove_of_absent_name_keeps_text() {
    let content = "\nA due:1\nB due:2\n";
    assert!(can_remove_from_database(content, "Z"));
    assert_eq!(database_without_task(content, "Z"), content);
}

#[test]
fn remove_past_the_last_line_is_refused() {
    // Two matching tasks on two lines: the second removal would reach past
    // the end of the list.
    let content = "A due:1\nA due:2";
    assert!(!can_remove_from_database(content, "A"));
}

fn day_db() -> Vec<Task> {
    vec![
        task("Buy milk", "2024-03-05(07:15:00)"),
        task("Call mom", "2024-03-05(08:00:00)"),
        task("Other day", "2024-03-06(01:00:00)"),
    ]
}

const DAY_TABLE: &str = "00:00-------\n|          |\n|          |\n|          |\n06:00-------\n|Buy milk|\n|Call mom|\n|          |\n12:00-------\n|          |\n|          |\n|          |\n18:00-------\n|          |\n|          |\n|          |\n------------";

#[test]
fn day_table_places_tasks_in_their_rows() {
    let c = config(6, 10, "%H:%M");
    let table = create_hours(&c, &"2024-03-05(10:30:00)".to_string(), &day_db()).unwrap();
    assert_eq!(table, DAY_TABLE);
}

#[test]
fn day_table_pads_long_gaps() {
    let c = config(24, 10, "%H:%M");
    let db = vec![task("ab", "2024-03-05(23:59:59)")];
    let table = create_hours(&c, &"2024-03-05(00:00:00)".to_string(), &db).unwrap();
    assert_eq!(table, "00:00-------\n|ab        |\n|          |\n------------");
}

#[test]
fn day_table_hours_above_24_count_as_24() {
    let c = config(30, 2, "%H");
    let table = create_hours(&c, &"2024-03-05(00:00:00)".to_string(), &Vec::new()).unwrap();
    assert_eq!(table, "00--\n|  |\n----");
}

#[test]
fn day_table_of_unreadable_date_is_none() {
    let c = config(6, 10, "%H:%M");
    assert!(create_hours(&c, &"yesterday".to_string(), &day_db()).is_none());
}

#[test]
fn day_table_with_unreadable_due_is_none() {
    let c = config(6, 10, "%H:%M");
    let db = vec![task("x", "soon")];
    assert!(create_hours(&c, &"2024-03-05(10:30:00)".to_string(), &db).is_none());
}

#[test]
fn day_table_with_too_long_time_is_none() {
    let c = config(24, 0, "%A %H:%M");
    assert!(create_hours(&c, &"2024-03-05(10:30:00)".to_string(), &Vec::new()).is_none());
}

#[test]
fn render_lays_out_rows() {
    let labels = vec!["A".to_string(), "B".to_string()];
    let slots = vec![vec!["xy".to_string()], vec![]];
    let t = render_hours(&labels, &slots, 2, &"=".to_string(), &"!".to_string());
    assert_eq!(t, "A===\n!xy!\n!  !\nB===\n!  !\n!  !\n----");
}

#[test]
fn day_table_with_time_just_longer_than_width_is_none() {
    // "00:00" is five bytes long, the cells three wide.
    let c = config(24, 3, "%H:%M");
    assert!(create_hours(&c, &"2024-03-05(10:30:00)".to_string(), &Vec::new()).is_none());
    let c = config(24, 4, "%H:%M");
    assert!(create_hours(&c, &"2024-03-05(10:30:00)".to_string(), &Vec::new()).is_none());
    let c = config(24, 5, "%H:%M");
    assert!(create_hours(&c, &"2024-03-05(10:30:00)".to_string(), &Vec::new()).is_some());
}

#[test]
fn week_table_with_time_longer_than_width_is_none() {
    let c = config(24, 3, "%H:%M");
    assert!(create_week(&c, &"2024-03-06(12:00:00)".to_string(), &Vec::new()).is_none());
}

#[test]
fn week_table_side_by_side() {
    let c = config(24, 5, "%H:%M");
    let week = create_week(&c, &"2024-03-06(12:00:00)".to_string(), &Vec::new()).unwrap();
    let expected = format!(
        "Sun----Mon----Tue----Wed----Thu----Fri----Sat----\n{}\n{}\n{}\n",
        "00:00--".repeat(7),
        "|     |".repeat(7),
        "-------".repeat(7)
    );
    assert_eq!(week, expected);
}

#[test]
fn week_table_one_below_the_other() {
    let mut c = config(24, 5, "%H:%M");
    c.week.show_vertically = true;
    c.week.starts_on_monday = false;
    let week = create_week(&c, &"2024-03-06(12:00:00)".to_string(), &Vec::new()).unwrap();
    let day = "00:00--\n|     |\n-------";
    let names = ["Sat", "Sun", "Mon", "Tue", "Wed", "Thu", "Fri"];
    let expected: String = names.iter().map(|n| format!("{}----\n{}\n", n, day)).collect();
    assert_eq!(week, expected);
}

#[test]
fn week_table_of_unreadable_date_is_none() {
    let c = config(24, 5, "%H:%M");
    assert!(create_week(&c, &"2024-13-06(12:00:00)".to_string(), &Vec::new()).is_none());
}

#[test]
fn read_hours_reads_a_day_table_back() {
    let c = config(6, 10, "%H:%M");
    let tasks = read_hours(&c, &"2024-03-05(10:30:00)".to_string(), &DAY_TABLE.to_string()).unwrap();
    assert_eq!(
        pairs(&tasks),
        vec![
            ("Buy milk".to_string(), "2024-03-05(06:00:00)".to_string()),
            ("Call mom".to_string(), "2024-03-05(06:00:00)".to_string()),
        ]
    );
}

#[test]
fn read_hours_keeps_short_and_strips_borders() {
    let c = config(6, 10, "%H:%M");
    let text = "09:30---\r\n|ok|\n|Write report   |  \nno time given here\n".to_string();
    let tasks = read_hours(&c, &"2024-03-05(10:30:00)".to_string(), &text).unwrap();
    assert_eq!(
        pairs(&tasks),
        vec![
            ("Write report".to_string(), "2024-03-05(09:30:00)".to_string()),
            ("no time given here".to_string(), "2024-03-05(09:30:00)".to_string()),
        ]
    );
}

#[test]
fn read_hours_refuses_a_slice_inside_a_character() {
    let c = config(6, 10, "%H:%M");
    // The fifth byte falls inside the two-byte 'é'.
    let text = "abcdé and more".to_string();
    assert!(read_hours(&c, &"2024-03-05(10:30:00)".to_string(), &text).is_none());
}

#[test]
fn read_hours_of_unreadable_date_is_none() {
    let c = config(6, 10, "%H:%M");
    assert!(read_hours(&c, &"no date".to_string(), &String::new()).is_none());
}

#[test]
fn read_week_gives_nothing() {
    let c = config(6, 10, "%H:%M");
    assert!(read_week(&c, &"2024-03-05(10:30:00)".to_string(), &"x".to_string()).is_empty());
}

#[test]
fn day_table_of_the_last_day_chrono_knows_is_none() {
    let c = config(24, 10, "%H:%M");
    let last = chrono::NaiveDate::MAX.and_hms_opt(0, 0, 0).unwrap();
    let last_text = last.format("%Y-%m-%d(%H:%M:%S)").to_string();
    let before_text = (last - chrono::Duration::days(1)).format("%Y-%m-%d(%H:%M:%S)").to_string();
    assert!(create_hours(&c, &last_text, &Vec::new()).is_none());
    assert!(create_hours(&c, &before_text, &Vec::new()).is_some());
}


#[test]
fn tasks_due_between_keeps_order_and_bounds() {
    let db = vec![task("a", "x"), task("b", "y"), task("c", "z"), task("d", "w")];
    let dues = vec![10, 20, 15, 30];
    assert_eq!(tasks_due_between(&db, &dues, 10, 20), vec!["a".to_string(), "c".to_string()]);
    assert!(tasks_due_between(&db, &dues, 31, 40).is_empty());
}

#[test]
fn a_cell_reads_back_as_its_task() {
    let line: Vec<char> = "|Buy milk      |".chars().collect();
    let vd: Vec<char> = vec!['|'];
    let content: String = cell_content_of(&line, &vd).unwrap().into_iter().collect();
    assert_eq!(content, "Buy milk");
    let padded: Vec<char> = "|é   |".chars().collect();
    let content: String = cell_content_of(&padded, &vd).unwrap().into_iter().collect();
    assert_eq!(content, "é");
}

#[test]
fn a_cell_with_a_wide_border_cannot_be_read() {
    // The leading border is a two-byte character: slicing one byte off it
    // falls inside the character.
    let line: Vec<char> = "ätask ä".chars().collect();
    let vd: Vec<char> = vec!['ä'];
    assert!(cell_content_of(&line, &vd).is_none());
}

#[test]
fn days_start_at_midnight() {
    assert_eq!(start_of_day(86400 + 3600), 86400);
    assert_eq!(start_of_day(-1), -86400);
    assert_eq!(start_of_day(0), 0);
}

#[test]
fn weekdays_count_from_sunday_or_monday() {
    // 1970-01-01 was a Thursday.
    assert_eq!(day_of_week(0, false), 4);
    assert_eq!(day_of_week(0, true), 3);
    // 1969-12-28 was a Sunday.
    assert_eq!(day_of_week(-4 * 86400, false), 0);
    assert_eq!(day_of_week(-4 * 86400 - 1, true), 5);
}

#[test]
fn every_task_of_the_day_stands_in_exactly_one_row() {
    let c = config(5, 0, "%H");
    // Five hours a row give four rows of six hours.
    let db = vec![
        task("t0", "2024-03-05(00:00:00)"),
        task("t1", "2024-03-05(05:59:59)"),
        task("t2", "2024-03-05(06:00:00)"),
        task("t3", "2024-03-05(23:59:59)"),
    ];
    let table = create_hours(&c, &"2024-03-05(12:00:00)".to_string(), &db).unwrap();
    for name in ["t0", "t1", "t2", "t3"] {
        assert_eq!(table.matches(name).count(), 1);
    }
    let heads: Vec<&str> = table.lines().filter(|l| l.ends_with("--") && !l.starts_with('-')).collect();
    assert_eq!(heads, vec!["00--", "06--", "12--", "18--"]);
}

#[test]
fn a_created_day_table_reads_back_as_its_tasks() {
    let c = config(6, 5, "%H:%M");
    let db = vec![
        task("Wake up", "2024-03-05(00:10:00)"),
        task("Buy milk", "2024-03-05(07:15:00)"),
        task("Elsewhere", "2024-03-04(07:15:00)"),
        task("Call mom", "2024-03-05(08:00:00)"),
        task("Sleep well", "2024-03-05(23:30:00)"),
    ];
    let chosen = "2024-03-05(10:30:00)".to_string();
    let table = create_hours(&c, &chosen, &db).unwrap();
    let tasks = read_hours(&c, &chosen, &table).unwrap();
    assert_eq!(
        pairs(&tasks),
        vec![
            ("Wake up".to_string(), "2024-03-05(00:00:00)".to_string()),
            ("Buy milk".to_string(), "2024-03-05(06:00:00)".to_string()),
            ("Call mom".to_string(), "2024-03-05(06:00:00)".to_string()),
            ("Sleep well".to_string(), "2024-03-05(18:00:00)".to_string()),
        ]
    );
}

#[test]
fn dates_of_one_week_at_one_time_give_one_week_table() {
    let c = config(6, 5, "%H:%M");
    let db = vec![task("Buy milk", "2024-03-05(07:15:00)"), task("Gym", "2024-03-08(19:00:00)")];
    let tuesday = create_week(&c, &"2024-03-05(10:30:00)".to_string(), &db).unwrap();
    let sunday = create_week(&c, &"2024-03-10(10:30:00)".to_string(), &db).unwrap();
    assert_eq!(tuesday, sunday);
    assert!(tuesday.contains("|Buy milk|"));
    let next_monday = create_week(&c, &"2024-03-11(10:30:00)".to_string(), &db).unwrap();
    assert_ne!(tuesday, next_monday);
}

#[test]
fn lines_of_other_days_or_without_tasks_change_no_day_table() {
    let c = config(6, 5, "%H:%M");
    let chosen = "2024-03-05(10:30:00)".to_string();
    let plain = "\nBuy milk due:2024-03-05(07:15:00)\nCall mom due:2024-03-05(08:00:00)";
    let busy = "\nnotes without a date\nBuy milk due:2024-03-05(07:15:00)\nTrip due:2024-03-06(00:00:00)\nCall mom due:2024-03-05(08:00:00)\nOld due:2024-03-04(23:59:59)";
    let a = create_hours(&c, &chosen, &parse_database(plain)).unwrap();
    let b = create_hours(&c, &chosen, &parse_database(busy)).unwrap();
    assert_eq!(a, b);
}
