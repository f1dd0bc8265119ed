//! Colour and style escape sequences around text.
use vstd::prelude::*;

use std::fmt::Write;

use crate::text::push_str;

verus! {

/// The colours the renderer uses.
pub enum StyleColor {
    Red,
    Green,
    DarkGrey,
    Yellow,
}

/// The text attributes the renderer uses.
pub enum StyleAttribute {
    Bold,
    Underlined,
    NoUnderline,
    Reset,
}

/// The 256-colour palette number of a colour.
pub open spec fn color_number(c: StyleColor) -> Seq<char> {
    match c {
        StyleColor::Red => "9"@,
        StyleColor::Green => "10"@,
        StyleColor::DarkGrey => "8"@,
        StyleColor::Yellow => "11"@,
    }
}

/// The ANSI sequence that sets the foreground colour `c`.
pub open spec fn foreground_sequence(c: StyleColor) -> Seq<char> {
    "\x1b[38;5;"@ + color_number(c) + "m"@
}

/// The ANSI sequence that sets attribute `a`.
pub open spec fn attribute_sequence(a: StyleAttribute) -> Seq<char> {
    match a {
        StyleAttribute::Bold => "\x1b[1m"@,
        StyleAttribute::Underlined => "\x1b[4m"@,
        StyleAttribute::NoUnderline => "\x1b[24m"@,
        StyleAttribute::Reset => "\x1b[0m"@,
    }
}

/// `crossterm::style::SetForegroundColor` written out (its `Display`). On a
/// terminal that takes ANSI codes it is `foreground_sequence(c)`, or the bare
/// `ESC [ m` once colours are switched off for the process (the `NO_COLOR`
/// environment variable, read once, or `force_color_output(false)`); on a
/// Windows console without ANSI support nothing is written (the console's
/// colour is set at once instead, and a failure there leaves the text
/// empty). Which of these comes out depends on the process, so the contract
/// lists all three.
#[verifier::external_body]
fn foreground(c: StyleColor) -> (r: String)
    ensures
        r@ == foreground_sequence(c) || r@ == "\x1b[m"@ || r@.len() == 0,
{
    let color = match c {
        StyleColor::Red => crossterm::style::Color::Red,
        StyleColor::Green => crossterm::style::Color::Green,
        StyleColor::DarkGrey => crossterm::style::Color::DarkGrey,
        StyleColor::Yellow => crossterm::style::Color::Yellow,
    };
    let mut s = String::new();
    match write!(s, "{}", crossterm::style::SetForegroundColor(color)) {
        Ok(()) => s,
        Err(_) => String::new(),
    }
}

/// `crossterm::style::SetAttribute` written out (its `Display`):
/// `attribute_sequence(a)` on a terminal that takes ANSI codes, nothing on a
/// Windows console without ANSI support (where the attribute is set at once,
/// and a failure leaves the text empty).
#[verifier::external_body]
fn attribute(a: StyleAttribute) -> (r: String)
    ensures
        r@ == attribute_sequence(a) || r@.len() == 0,
{
    let attr = match a {
        StyleAttribute::Bold => crossterm::style::Attribute::Bold,
        StyleAttribute::Underlined => crossterm::style::Attribute::Underlined,
        StyleAttribute::NoUnderline => crossterm::style::Attribute::NoUnderline,
        StyleAttribute::Reset => crossterm::style::Attribute::Reset,
    };
    let mut s = String::new();
    match write!(s, "{}", crossterm::style::SetAttribute(attr)) {
        Ok(()) => s,
        Err(_) => String::new(),
    }
}

/// Controls whether ANSI colour/style escape sequences are emitted; holds the
/// sequences, as the terminal library writes them, fetched when a
/// configuration with colours on is made (with colours off the library is
/// not asked).
#[derive(Debug, Clone)]
pub struct ColorConfig {
    pub enabled: bool,
    red: String,
    green: String,
    dark_grey: String,
    yellow: String,
    bold: String,
    underlined: String,
    no_underline: String,
    reset: String,
}

impl ColorConfig {
    /// Colours and styles are emitted.
    pub closed spec fn on(&self) -> bool {
        self.enabled
    }

    pub closed spec fn red(&self) -> Seq<char> {
        self.red@
    }

    pub closed spec fn green(&self) -> Seq<char> {
        self.green@
    }

    pub closed spec fn dark_grey(&self) -> Seq<char> {
        self.dark_grey@
    }

    pub closed spec fn yellow(&self) -> Seq<char> {
        self.yellow@
    }

    pub closed spec fn bold(&self) -> Seq<char> {
        self.bold@
    }

    pub closed spec fn underlined(&self) -> Seq<char> {
        self.underlined@
    }

    pub closed spec fn no_underline(&self) -> Seq<char> {
        self.no_underline@
    }

    pub closed spec fn reset(&self) -> Seq<char> {
        self.reset@
    }

    /// Each sequence held is one the terminal library can write for it.
    pub open spec fn wf(&self) -> bool {
        &&& fg_ok(self.red(), StyleColor::Red)
        &&& fg_ok(self.green(), StyleColor::Green)
        &&& fg_ok(self.dark_grey(), StyleColor::DarkGrey)
        &&& fg_ok(self.yellow(), StyleColor::Yellow)
        &&& attr_ok(self.bold(), StyleAttribute::Bold)
        &&& attr_ok(self.underlined(), StyleAttribute::Underlined)
        &&& attr_ok(self.no_underline(), StyleAttribute::NoUnderline)
        &&& attr_ok(self.reset(), StyleAttribute::Reset)
    }

    pub fn new(enabled: bool) -> (c: Self)
        ensures
            c.on() == enabled,
            c.wf(),
    {
        if enabled {
            ColorConfig {
                enabled,
                red: foreground(StyleColor::Red),
                green: foreground(StyleColor::Green),
                dark_grey: foreground(StyleColor::DarkGrey),
                yellow: foreground(StyleColor::Yellow),
                bold: attribute(StyleAttribute::Bold),
                underlined: attribute(StyleAttribute::Underlined),
                no_underline: attribute(StyleAttribute::NoUnderline),
                reset: attribute(StyleAttribute::Reset),
            }
        } else {
            // Without colours the terminal library is not asked anything.
            ColorConfig {
                enabled,
                red: String::new(),
                green: String::new(),
                dark_grey: String::new(),
                yellow: String::new(),
                bold: String::new(),
                underlined: String::new(),
                no_underline: String::new(),
                reset: String::new(),
            }
        }
    }

    fn styled(&self, w: &mut String, text: &str, color: &String, bold: bool)
        ensures
            final(w)@ == old(w)@ + styled_text(*self, text@, color@, bold),
    {
        if self.enabled {
            push_str(w, color.as_str());
            if bold {
                push_str(w, self.bold.as_str());
            }
            push_str(w, text);
            push_str(w, self.reset.as_str());
        } else {
            push_str(w, text);
        }
        assert(w@ =~= old(w)@ + styled_text(*self, text@, color@, bold));
    }

    pub fn write_error(&self, w: &mut String, text: &str)
        ensures
            final(w)@ == old(w)@ + error_text(*self, text@),
    {
        self.styled(w, text, &self.red, true)
    }

    pub fn write_success(&self, w: &mut String, text: &str)
        ensures
            final(w)@ == old(w)@ + success_text(*self, text@),
    {
        self.styled(w, text, &self.green, false)
    }

    pub fn write_dim(&self, w: &mut String, text: &str)
        ensures
            final(w)@ == old(w)@ + dim_text(*self, text@),
    {
        self.styled(w, text, &self.dark_grey, false)
    }

    pub fn write_warning(&self, w: &mut String, text: &str)
        ensures
            final(w)@ == old(w)@ + warning_text(*self, text@),
    {
        self.styled(w, text, &self.yellow, false)
    }

    pub fn write_header(&self, w: &mut String, text: &str)
        ensures
            final(w)@ == old(w)@ + header_text(*self, text@),
    {
        if self.enabled {
            push_str(w, self.bold.as_str());
            push_str(w, self.underlined.as_str());
            push_str(w, text);
            push_str(w, self.no_underline.as_str());
            push_str(w, self.reset.as_str());
        } else {
            push_str(w, text);
        }
        assert(w@ =~= old(w)@ + header_text(*self, text@));
    }

    pub fn write_bold(&self, w: &mut String, text: &str)
        ensures
            final(w)@ == old(w)@ + bold_text(*self, text@),
    {
        if self.enabled {
            push_str(w, self.bold.as_str());
            push_str(w, text);
            push_str(w, self.reset.as_str());
        } else {
            push_str(w, text);
        }
        assert(w@ =~= old(w)@ + bold_text(*self, text@));
    }

    pub fn write_duration(&self, w: &mut String, text: &str)
        ensures
            final(w)@ == old(w)@ + dim_text(*self, text@),
    {
        self.styled(w, text, &self.dark_grey, false)
    }

    pub fn write_error_icon(&self, w: &mut String)
        ensures
            final(w)@ == old(w)@ + error_text(*self, "❌"@),
    {
        self.styled(w, "❌", &self.red, true)
    }

    pub fn write_success_icon(&self, w: &mut String)
        ensures
            final(w)@ == old(w)@ + success_text(*self, "✅"@),
    {
        self.styled(w, "✅", &self.green, false)
    }

    pub fn write_lightning(&self, w: &mut String, text: &str)
        ensures
            final(w)@ == old(w)@ + lightning_text(*self, text@),
    {
        if self.enabled {
            push_str(w, self.red.as_str());
            push_str(w, self.bold.as_str());
            push_str(w, "⚡ ");
            push_str(w, text);
            push_str(w, self.reset.as_str());
        } else {
            push_str(w, "⚡ ");
            push_str(w, text);
        }
        assert(w@ =~= old(w)@ + lightning_text(*self, text@));
    }
}

impl Default for ColorConfig {
    fn default() -> (c: Self)
        ensures
            c.on(),
            c.wf(),
    {
        ColorConfig::new(true)
    }
}

/// `s` is what the terminal library writes to set foreground colour `c`.
pub open spec fn fg_ok(s: Seq<char>, c: StyleColor) -> bool {
    s == foreground_sequence(c) || s == "\x1b[m"@ || s.len() == 0
}

/// `s` is what the terminal library writes to set attribute `a`.
pub open spec fn attr_ok(s: Seq<char>, a: StyleAttribute) -> bool {
    s == attribute_sequence(a) || s.len() == 0
}

/// `text` in colour `color`, bold if asked, when colours are on; `text`
/// alone otherwise.
pub open spec fn styled_text(c: ColorConfig, text: Seq<char>, color: Seq<char>, bold: bool) -> Seq<char> {
    if c.on() {
        color + (if bold {
            c.bold()
        } else {
            Seq::empty()
        }) + text + c.reset()
    } else {
        text
    }
}

/// Red and bold.
pub open spec fn error_text(c: ColorConfig, text: Seq<char>) -> Seq<char> {
    styled_text(c, text, c.red(), true)
}

/// Green.
pub open spec fn success_text(c: ColorConfig, text: Seq<char>) -> Seq<char> {
    styled_text(c, text, c.green(), false)
}

/// Dark grey.
pub open spec fn dim_text(c: ColorConfig, text: Seq<char>) -> Seq<char> {
    styled_text(c, text, c.dark_grey(), false)
}

/// Yellow.
pub open spec fn warning_text(c: ColorConfig, text: Seq<char>) -> Seq<char> {
    styled_text(c, text, c.yellow(), false)
}

/// Bold and underlined.
pub open spec fn header_text(c: ColorConfig, text: Seq<char>) -> Seq<char> {
    if c.on() {
        c.bold() + c.underlined() + text + c.no_underline() + c.reset()
    } else {
        text
    }
}

/// Bold.
pub open spec fn bold_text(c: ColorConfig, text: Seq<char>) -> Seq<char> {
    if c.on() {
        c.bold() + text + c.reset()
    } else {
        text
    }
}

/// `⚡ ` and the text, red and bold.
pub open spec fn lightning_text(c: ColorConfig, text: Seq<char>) -> Seq<char> {
    if c.on() {
        c.red() + c.bold() + "⚡ "@ + text + c.reset()
    } else {
        "⚡ "@ + text
    }
}

} // verus!
