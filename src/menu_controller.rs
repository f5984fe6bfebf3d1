use vstd::prelude::*;

verus! {

/// An entry of the main menu, with its label.
#[derive(Clone)]
pub enum MenuOption {
    New(String),
    Score(String),
    Quit(String),
}

impl MenuOption {
    /// The label shown for the entry.
    pub fn label(&self) -> (r: &String)
        ensures
            r == match self {
                MenuOption::New(l) => l,
                MenuOption::Score(l) => l,
                MenuOption::Quit(l) => l,
            },
    {
        match self {
            MenuOption::New(label) => label,
            MenuOption::Score(label) => label,
            MenuOption::Quit(label) => label,
        }
    }
}

/// The entries of the main menu, top to bottom.
pub fn main_menu_options() -> (r: Vec<MenuOption>)
    ensures
        r@.len() == 3,
        r@[0] == MenuOption::New(r@[0]->New_0) && r@[0]->New_0@ == "New Game"@,
        r@[1] == MenuOption::Score(r@[1]->Score_0) && r@[1]->Score_0@ == "View Highscores"@,
        r@[2] == MenuOption::Quit(r@[2]->Quit_0) && r@[2]->Quit_0@ == "Quit"@,
{
    let mut options: Vec<MenuOption> = Vec::new();
    options.push(MenuOption::New(String::from_str("New Game")));
    options.push(MenuOption::Score(String::from_str("View Highscores")));
    options.push(MenuOption::Quit(String::from_str("Quit")));
    options
}

/// Where the menu cursor goes from `cursor` among `count` entries: down first, then up,
/// each wrapping around at the ends.
pub open spec fn cursor_after(cursor: int, count: int, down: bool, up: bool) -> int {
    let c = if down {
        if cursor + 1 == count { 0 } else { cursor + 1 }
    } else {
        cursor
    };
    if up {
        if c == 0 { count - 1 } else { c - 1 }
    } else {
        c
    }
}

/// Move the menu cursor for the Down and Up keys pressed in this cycle.
pub fn update_cursor_index(cursor: u16, count: u16, down: bool, up: bool) -> (r: u16)
    requires
        cursor < count,
    ensures
        r == cursor_after(cursor as int, count as int, down, up),
        r < count,
{
    let mut c = cursor;
    if down {
        if c + 1 == count {
            c = 0;
        } else {
            c = c + 1;
        }
    }
    if up {
        if c == 0 {
            c = count - 1;
        } else {
            c = c - 1;
        }
    }
    c
}

} // verus!
