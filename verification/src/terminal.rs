//! The escape text that switches the terminal into the editor's screen.

use vstd::prelude::*;

verus! {

/// What the terminal is sent when the editor starts: switch to the alternate
/// screen, clear it, and move the cursor to the top-left corner.
pub fn start_tui() -> (r: String)
    ensures
        r@ == "\x1b[?1049h"@ + "\x1b[2J\x1b[H"@,
{
    let mut r = String::new();
    r.append("\x1b[?1049h");
    r.append("\x1b[2J\x1b[H");
    r
}

} // verus!
