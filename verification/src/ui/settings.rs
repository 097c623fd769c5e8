//! The settings page: its categories and what it holds while it is open.
use vstd::prelude::*;

verus! {

#[derive(PartialEq, Eq, Structural, Clone, Copy, Debug)]
pub enum Category {
    Appearance,
    Repositories,
    About,
}

pub open spec fn category_title(category: Category) -> Seq<char> {
    match category {
        Category::Appearance => "Appearance"@,
        Category::Repositories => "Repositories"@,
        Category::About => "About"@,
    }
}

impl Category {
    /// Every category, in the order the page lists them.
    pub const ALL: [Category; 3] = [Category::Appearance, Category::Repositories, Category::About];

    pub fn title(self) -> (text: &'static str)
        ensures
            text@ == category_title(self),
    {
        match self {
            Category::Appearance => "Appearance",
            Category::Repositories => "Repositories",
            Category::About => "About",
        }
    }
}

/// What the page holds while it is open, and nothing that outlives it.
pub struct Form {
    pub repository: String,
    pub repository_error: Option<String>,
    pub repository_completions: Vec<String>,
    pub directory: String,
    pub directory_error: Option<String>,
    pub directory_completions: Vec<String>,
    /// The row the pointer is over, so the whole bar can light up under it.
    pub hovered: Option<String>,
    pub discovered: Vec<String>,
    pub picker: Option<Picker>,
}

impl Form {
    pub fn new() -> (form: Form)
        ensures
            form.repository@.len() == 0 && form.directory@.len() == 0,
            form.repository_error is None && form.directory_error is None,
            form.repository_completions@.len() == 0 && form.directory_completions@.len() == 0,
            form.hovered is None && form.picker is None,
            form.discovered@.len() == 0,
    {
        Form {
            repository: String::new(),
            repository_error: None,
            repository_completions: Vec::new(),
            directory: String::new(),
            directory_error: None,
            directory_completions: Vec::new(),
            hovered: None,
            discovered: Vec::new(),
            picker: None,
        }
    }
}

/// The icons a repository could take, offered while one is being chosen.
pub struct Picker {
    pub repository: String,
    pub choices: Vec<String>,
}

} // verus!
