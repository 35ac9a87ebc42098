use vstd::prelude::*;

verus! {

/// The directory where the configuration file lives.
pub fn get_config_path() -> (path: &'static str)
    ensures
        path@ == "~/.config/minitodo"@,
{
    "~/.config/minitodo"
}

/// The name of the configuration file inside `get_config_path()`.
pub fn get_config_name() -> (name: &'static str)
    ensures
        name@ == "minitodo.conf"@,
{
    "minitodo.conf"
}

/// The configuration written when none exists yet, in TOML.
pub fn get_defaults() -> (text: &'static str)
    ensures
        text@ == r#"
[hours]
hours = 2
num_lines = 8
text_format = "%H:%M"
min_line_length = 20
horizontal_divisor = '-'
vertical_divisor = '|'

[week]
starts_on_monday = true
horizontal_divisor = "-"
show_vertically = false
today_char = "*"
text_format = "%A"

[database]
path = "~/.local/minitodo"
filename = "todo.txt"
"#@,
{
    r#"
[hours]
hours = 2
num_lines = 8
text_format = "%H:%M"
min_line_length = 20
horizontal_divisor = '-'
vertical_divisor = '|'

[week]
starts_on_monday = true
horizontal_divisor = "-"
show_vertically = false
today_char = "*"
text_format = "%A"

[database]
path = "~/.local/minitodo"
filename = "todo.txt"
"#
}

} // verus!
