use vstd::prelude::*;

verus! {

/// The category assigned to one grapheme cluster of a line by the
/// highlighter.  `Normal` stands for unclassified text and is shown in the
/// terminal's default foreground colour; every other category maps to
/// exactly one RGB colour.
#[derive(Clone, Copy, Debug, PartialEq, Eq, Structural)]
pub enum Type {
    Normal,
    Number,
    Match,
    Str,
    Character,
    Comment,
    KeywordPrimary,
}

impl Type {
    /// The colour of this category: `Some((r, g, b))` for a fixed RGB
    /// colour, `None` for the terminal's default foreground.
    pub open spec fn spec_color(self) -> Option<(u8, u8, u8)> {
        match self {
            Type::Normal => Option::None,
            Type::Number => Option::Some((220u8, 163u8, 163u8)),
            Type::Match => Option::Some((38u8, 139u8, 210u8)),
            Type::Str => Option::Some((211u8, 54u8, 130u8)),
            Type::Character => Option::Some((108u8, 113u8, 196u8)),
            Type::Comment => Option::Some((133u8, 153u8, 0u8)),
            Type::KeywordPrimary => Option::Some((181u8, 137u8, 0u8)),
        }
    }

    pub fn to_color(self) -> (c: Option<(u8, u8, u8)>)
        ensures
            c == self.spec_color(),
    {
        match self {
            Type::Normal => Option::None,
            Type::Number => Option::Some((220u8, 163u8, 163u8)),
            Type::Match => Option::Some((38u8, 139u8, 210u8)),
            Type::Str => Option::Some((211u8, 54u8, 130u8)),
            Type::Character => Option::Some((108u8, 113u8, 196u8)),
            Type::Comment => Option::Some((133u8, 153u8, 0u8)),
            Type::KeywordPrimary => Option::Some((181u8, 137u8, 0u8)),
        }
    }
}

/// The escape sequence that restores the terminal's default foreground
/// colour: `ESC [ 3 9 m`.
pub open spec fn reset_fg_escape() -> Seq<char> {
    seq!['\u{1b}', '[', '3', '9', 'm']
}

/// The ANSI escape sequence that selects the given RGB foreground
/// colour, as termion renders it.
pub uninterp spec fn rgb_fg_escape(r: u8, g: u8, b: u8) -> Seq<char>;

/// The style marker that switches the terminal to the colour of `t`:
/// an RGB escape for a coloured category, the reset escape for `Normal`.
pub open spec fn color_escape(t: Type) -> Seq<char> {
    match t.spec_color() {
        Option::Some((r, g, b)) => rgb_fg_escape(r, g, b),
        Option::None => reset_fg_escape(),
    }
}

/// Relies on termion's `color::Rgb::fg_string`: the ANSI foreground
/// escape it returns is computed from the three channel values alone.
#[verifier::external_body]
fn rgb_fg_string(r: u8, g: u8, b: u8) -> (s: String)
    ensures
        s@ == rgb_fg_escape(r, g, b),
{
    termion::color::Rgb(r, g, b).fg_string()
}

/// Relies on termion's `color::Reset::fg_str`, which returns the
/// constant escape `ESC [ 3 9 m` restoring the default foreground.
#[verifier::external_body]
fn reset_fg_string() -> (s: String)
    ensures
        s@ == reset_fg_escape(),
{
    termion::color::Reset.fg_str().to_string()
}

/// The style marker for `t` as an owned string, ready to embed in a
/// rendered line.
pub fn color_marker(t: Type) -> (s: String)
    ensures
        s@ == color_escape(t),
{
    match t.to_color() {
        Option::Some((r, g, b)) => rgb_fg_string(r, g, b),
        Option::None => reset_fg_string(),
    }
}

/// The reset marker as an owned string; every rendered line ends with it.
pub fn reset_marker() -> (s: String)
    ensures
        s@ == reset_fg_escape(),
{
    reset_fg_string()
}

} // verus!
