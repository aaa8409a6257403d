//! The control sequences that the editor sends to the terminal.
//!
//! The sequences come from the `termion` crate. What each of them is, byte
//! for byte, is stated here and not proved: it is what `termion` writes.

use vstd::prelude::*;

verus! {

/// The decimal digits of `n`, as bytes.
pub open spec fn decimal(n: nat) -> Seq<u8>
    decreases n,
{
    if n < 10 {
        seq![(48 + n) as u8]
    } else {
        decimal(n / 10).push((48 + n % 10) as u8)
    }
}

/// The two bytes that begin every control sequence: escape and `[`.
pub open spec fn csi() -> Seq<u8> {
    seq![27u8, 91u8]
}

/// The sequence that clears the entire screen.
pub open spec fn clear_all_bytes() -> Seq<u8> {
    csi() + seq![50u8, 74u8]
}

/// The sequence that clears the current line.
pub open spec fn clear_line_bytes() -> Seq<u8> {
    csi() + seq![50u8, 75u8]
}

/// The sequence that saves the cursor.
pub open spec fn save_bytes() -> Seq<u8> {
    csi() + seq![115u8]
}

/// The sequence that restores the cursor.
pub open spec fn restore_bytes() -> Seq<u8> {
    csi() + seq![117u8]
}

/// The sequence that shows the cursor.
pub open spec fn show_bytes() -> Seq<u8> {
    csi() + seq![63u8, 50u8, 53u8, 104u8]
}

/// The sequence that makes the cursor a blinking block.
pub open spec fn blinking_block_bytes() -> Seq<u8> {
    csi() + seq![49u8, 32u8, 113u8]
}

/// The sequence that makes the cursor a blinking bar.
pub open spec fn blinking_bar_bytes() -> Seq<u8> {
    csi() + seq![53u8, 32u8, 113u8]
}

/// The sequence that puts the cursor into column `x` of line `y` of the
/// screen, both counted from 1: the line and the column in decimal
/// digits, with `;` between them and `H` behind them.
pub open spec fn goto_bytes(x: u16, y: u16) -> Seq<u8> {
    csi() + decimal(y as nat) + seq![59u8] + decimal(x as nat) + seq![72u8]
}

/// What `termion::clear::All` writes: escape, `[2J`.
#[verifier::external_body]
pub(crate) fn clear_all() -> (bytes: Vec<u8>)
    ensures
        bytes@ == clear_all_bytes(),
{
    format!("{}", termion::clear::All).into_bytes()
}

/// What `termion::clear::CurrentLine` writes: escape, `[2K`.
#[verifier::external_body]
pub(crate) fn clear_line() -> (bytes: Vec<u8>)
    ensures
        bytes@ == clear_line_bytes(),
{
    format!("{}", termion::clear::CurrentLine).into_bytes()
}

/// What `termion::cursor::Save` writes: escape, `[s`.
#[verifier::external_body]
pub(crate) fn save_cursor() -> (bytes: Vec<u8>)
    ensures
        bytes@ == save_bytes(),
{
    format!("{}", termion::cursor::Save).into_bytes()
}

/// What `termion::cursor::Restore` writes: escape, `[u`.
#[verifier::external_body]
pub(crate) fn restore_cursor() -> (bytes: Vec<u8>)
    ensures
        bytes@ == restore_bytes(),
{
    format!("{}", termion::cursor::Restore).into_bytes()
}

/// What `termion::cursor::Show` writes: escape, `[?25h`.
#[verifier::external_body]
pub(crate) fn show_cursor() -> (bytes: Vec<u8>)
    ensures
        bytes@ == show_bytes(),
{
    format!("{}", termion::cursor::Show).into_bytes()
}

/// What `termion::cursor::BlinkingBlock` writes: escape, `[1 q`.
#[verifier::external_body]
pub(crate) fn blinking_block() -> (bytes: Vec<u8>)
    ensures
        bytes@ == blinking_block_bytes(),
{
    format!("{}", termion::cursor::BlinkingBlock).into_bytes()
}

/// What `termion::cursor::BlinkingBar` writes: escape, `[5 q`.
#[verifier::external_body]
pub(crate) fn blinking_bar() -> (bytes: Vec<u8>)
    ensures
        bytes@ == blinking_bar_bytes(),
{
    format!("{}", termion::cursor::BlinkingBar).into_bytes()
}

/// What `termion::cursor::Goto(x, y)` writes: escape, `[`, the line `y`
/// in decimal digits, `;`, the column `x` in decimal digits, `H`. In a
/// debug build `termion` refuses to write `Goto(0, 0)`, so that one is
/// left out.
#[verifier::external_body]
pub(crate) fn goto(x: u16, y: u16) -> (bytes: Vec<u8>)
    requires
        x != 0 || y != 0,
    ensures
        bytes@ == goto_bytes(x, y),
{
    format!("{}", termion::cursor::Goto(x, y)).into_bytes()
}

} // verus!
