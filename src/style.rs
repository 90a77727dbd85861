//! Terminal colours, through the `colored` crate. Whether colours are on
//! depends on the environment, so each wrapper states what holds either way.

use colored::Colorize;
use vstd::prelude::*;

verus! {

/// The text holds an escape character (and so may already be styled).
pub open spec fn has_esc(s: Seq<char>) -> bool {
    s.contains('\x1b')
}

/// `s` drawn in the terminal style `code` (an SGR parameter list).
pub open spec fn sgr(code: Seq<char>, s: Seq<char>) -> Seq<char> {
    seq!['\x1b', '['] + code + seq!['m'] + s + seq!['\x1b', '[', '0', 'm']
}

/// `out` shows `plain` in style `code`, or as it is where colours are off.
pub open spec fn shaded(code: Seq<char>, plain: Seq<char>, out: Seq<char>) -> bool {
    has_esc(plain) || out == plain || out == sgr(code, plain)
}

pub open spec fn RED() -> Seq<char> {
    seq!['3', '1']
}

pub open spec fn BRIGHT_BLACK() -> Seq<char> {
    seq!['9', '0']
}

pub open spec fn BOLD() -> Seq<char> {
    seq!['1']
}

pub open spec fn GREEN_BOLD() -> Seq<char> {
    seq!['1', ';', '3', '2']
}

pub open spec fn RED_BOLD() -> Seq<char> {
    seq!['1', ';', '3', '1']
}

pub open spec fn BLUE_BOLD() -> Seq<char> {
    seq!['1', ';', '3', '4']
}

/// Relies on `Colorize::red` and the `Display` of `ColoredString`.
#[verifier::external_body]
pub(crate) fn red(s: &str) -> (r: String)
    ensures
        shaded(RED(), s@, r@),
{
    s.red().to_string()
}

/// Relies on `Colorize::bright_black` and the `Display` of `ColoredString`.
#[verifier::external_body]
pub(crate) fn bright_black(s: &str) -> (r: String)
    ensures
        shaded(BRIGHT_BLACK(), s@, r@),
{
    s.bright_black().to_string()
}

/// Relies on `Colorize::bold` and the `Display` of `ColoredString`.
#[verifier::external_body]
pub(crate) fn bold(s: &str) -> (r: String)
    ensures
        shaded(BOLD(), s@, r@),
{
    s.bold().to_string()
}

/// Relies on `Colorize::green`, then `bold`, and the `Display` of `ColoredString`.
#[verifier::external_body]
pub(crate) fn green_bold(s: &str) -> (r: String)
    ensures
        shaded(GREEN_BOLD(), s@, r@),
{
    s.green().bold().to_string()
}

/// Relies on `Colorize::red`, then `bold`, and the `Display` of `ColoredString`.
#[verifier::external_body]
pub(crate) fn red_bold(s: &str) -> (r: String)
    ensures
        shaded(RED_BOLD(), s@, r@),
{
    s.red().bold().to_string()
}

/// Relies on `Colorize::blue`, then `bold`, and the `Display` of `ColoredString`.
#[verifier::external_body]
pub(crate) fn blue_bold(s: &str) -> (r: String)
    ensures
        shaded(BLUE_BOLD(), s@, r@),
{
    s.blue().bold().to_string()
}

} // verus!
