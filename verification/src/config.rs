//! Formatting configuration: line-width budgets, the indent unit, the newline
//! style of the rendered output, and the output mode of the final emission.

use vstd::prelude::*;

verus! {

/// How line breaks are rendered when a buffer is emitted.
#[derive(Debug, Clone, Copy, PartialEq, Eq, Structural)]
pub enum NewlineStyle {
    Unix,
    Windows,
}

/// Where the final text of a file goes.
#[derive(Debug)]
pub enum WriteMode {
    /// Replace the original file, leaving a backup beside it.
    Overwrite,
    /// Write a sibling file with the given added extension.
    NewFile(String),
    /// Print each file's name and text to standard output.
    Display,
    /// Produce the rendered text in memory, with no filesystem traffic.
    Return,
}

/// Global formatting configuration.
pub struct Config {
    /// Hard limit on the width of a rendered line.
    pub max_width: usize,
    /// Softer width used when a construct may wrap over several lines.
    pub ideal_width: usize,
    /// Spaces per indent level.
    pub tab_spaces: usize,
    /// Newline style of the emitted text.
    pub newline_style: NewlineStyle,
}

impl Config {
    pub fn new(max_width: usize, ideal_width: usize, tab_spaces: usize, newline_style: NewlineStyle) -> (r: Config)
        ensures
            r.max_width == max_width,
            r.ideal_width == ideal_width,
            r.tab_spaces == tab_spaces,
            r.newline_style == newline_style,
    {
        Config { max_width, ideal_width, tab_spaces, newline_style }
    }
}

impl Default for Config {
    /// The stock configuration: lines capped at 100 columns, 80 as the ideal
    /// width for wrapped layouts, four spaces per indent, Unix newlines.
    fn default() -> (r: Config)
        ensures
            r.max_width == 100,
            r.ideal_width == 80,
            r.tab_spaces == 4,
            r.newline_style == NewlineStyle::Unix,
    {
        Config {
            max_width: 100,
            ideal_width: 80,
            tab_spaces: 4,
            newline_style: NewlineStyle::Unix,
        }
    }
}

/// The attribute word that suppresses formatting for the item that carries it.
pub fn skip_annotation() -> (r: &'static str)
    ensures
        r@ == skip_annotation_spec(),
{
    "rustfmt_skip"
}

/// The characters of the suppression marker.
pub open spec fn skip_annotation_spec() -> Seq<char> {
    "rustfmt_skip"@
}

} // verus!
