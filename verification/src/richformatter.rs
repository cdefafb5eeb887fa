//! Writing styled text: the colors, and what a formatter that writes
//! terminal styles must offer.

use std::fmt::Write;
use vstd::prelude::*;

verus! {

#[derive(Copy, Clone, Debug)]
pub enum Color {
    Black,
    Red,
    Green,
    Yellow,
    Blue,
    Magenta,
    Cyan,
    White,
    LightBlack,
    LightRed,
    LightGreen,
    LightYellow,
    LightBlue,
    LightMagenta,
    LightCyan,
    LightWhite,
}

/// A writer of terminal styles into a buffer.
pub trait RichFormatter {
    fn position_cursor<W: Write>(&self, buf: &mut W, col: u16) -> std::fmt::Result;

    /// What setting the foreground to `color` does to `buf`: the result of
    /// the write, and the buffer after it.
    spec fn fg_color_outcome<W: Write>(&self, buf: W, color: Color) -> (std::fmt::Result, W);

    /// What setting the background to `color` does to `buf`: the result of
    /// the write, and the buffer after it.
    spec fn bg_color_outcome<W: Write>(&self, buf: W, color: Color) -> (std::fmt::Result, W);

    fn fg_color<W: Write>(&self, buf: &mut W, color: Color) -> (r: std::fmt::Result)
        ensures
            (r, *final(buf)) == self.fg_color_outcome(*old(buf), color),
    ;

    fn bg_color<W: Write>(&self, buf: &mut W, color: Color) -> (r: std::fmt::Result)
        ensures
            (r, *final(buf)) == self.bg_color_outcome(*old(buf), color),
    ;

    fn bold<W: Write>(&self, buf: &mut W) -> std::fmt::Result;

    fn reset_style<W: Write>(&self, buf: &mut W) -> std::fmt::Result;

    /// Sets the foreground color where there is one, as `fg_color` does;
    /// writes nothing and succeeds where there is none.
    fn maybe_fg_color<W: Write>(&self, buf: &mut W, color: Option<Color>) -> (r: std::fmt::Result)
        ensures
            color is None ==> r is Ok && *final(buf) == *old(buf),
            color matches Some(c) ==> (r, *final(buf)) == self.fg_color_outcome(*old(buf), c),
    {
        if let Some(c) = color {
            return self.fg_color(buf, c);
        }
        Ok(())
    }

    /// Sets the background color where there is one, as `bg_color` does;
    /// writes nothing and succeeds where there is none.
    fn maybe_bg_color<W: Write>(&self, buf: &mut W, color: Option<Color>) -> (r: std::fmt::Result)
        ensures
            color is None ==> r is Ok && *final(buf) == *old(buf),
            color matches Some(c) ==> (r, *final(buf)) == self.bg_color_outcome(*old(buf), c),
    {
        if let Some(c) = color {
            return self.bg_color(buf, c);
        }
        Ok(())
    }
}

} // verus!
