//! The menu bar's menus.
use vstd::prelude::*;

verus! {

#[derive(PartialEq, Eq, Structural, Clone, Copy, Debug)]
pub enum Menu {
    Repository,
    Commit,
    View,
    Help,
}

pub open spec fn menu_title(menu: Menu) -> Seq<char> {
    match menu {
        Menu::Repository => "Repository"@,
        Menu::Commit => "Commit"@,
        Menu::View => "View"@,
        Menu::Help => "Help"@,
    }
}

impl Menu {
    /// Every menu, left to right.
    pub const ALL: [Menu; 4] = [Menu::Repository, Menu::Commit, Menu::View, Menu::Help];

    pub fn title(self) -> (text: &'static str)
        ensures
            text@ == menu_title(self),
    {
        match self {
            Menu::Repository => "Repository",
            Menu::Commit => "Commit",
            Menu::View => "View",
            Menu::Help => "Help",
        }
    }
}

} // verus!
