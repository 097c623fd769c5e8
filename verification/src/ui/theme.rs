//! The themes a reader can choose between.
use vstd::prelude::*;

verus! {

/// A theme, or the desktop's own light or dark preference.
#[derive(PartialEq, Eq, Structural, Clone, Copy, Debug)]
pub enum Choice {
    System,
    Dark,
    Light,
    Dracula,
    TokyoNight,
    Nord,
    GruvboxDark,
    CatppuccinMocha,
    SolarizedLight,
}

/// What a theme is called in the interface.
pub open spec fn label_text(choice: Choice) -> Seq<char> {
    match choice {
        Choice::System => "system"@,
        Choice::Dark => "dark"@,
        Choice::Light => "light"@,
        Choice::Dracula => "dracula"@,
        Choice::TokyoNight => "tokyo night"@,
        Choice::Nord => "nord"@,
        Choice::GruvboxDark => "gruvbox dark"@,
        Choice::CatppuccinMocha => "catppuccin mocha"@,
        Choice::SolarizedLight => "solarized light"@,
    }
}

impl Choice {
    /// Every choice, in the order the interface offers them.
    pub const ALL: [Choice; 9] = [
        Choice::System,
        Choice::Dark,
        Choice::Light,
        Choice::Dracula,
        Choice::TokyoNight,
        Choice::Nord,
        Choice::GruvboxDark,
        Choice::CatppuccinMocha,
        Choice::SolarizedLight,
    ];

    pub fn label(self) -> (text: &'static str)
        ensures
            text@ == label_text(self),
    {
        match self {
            Choice::System => "system",
            Choice::Dark => "dark",
            Choice::Light => "light",
            Choice::Dracula => "dracula",
            Choice::TokyoNight => "tokyo night",
            Choice::Nord => "nord",
            Choice::GruvboxDark => "gruvbox dark",
            Choice::CatppuccinMocha => "catppuccin mocha",
            Choice::SolarizedLight => "solarized light",
        }
    }
}

} // verus!
