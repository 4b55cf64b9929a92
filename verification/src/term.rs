//! What is written to the real terminal around an attach.

use vstd::prelude::*;
use vstd::string::StringSliceAdditionalSpecFns;

use crate::filter;

verus! {

/// Enters the alternate screen buffer and homes the cursor.
pub fn enter_alt() -> (bytes: &'static [u8])
    ensures
        bytes@ == "\x1b[?1049h\x1b[H".spec_bytes(),
{
    "\x1b[?1049h\x1b[H".as_bytes()
}

/// Forces the classic keyboard encoding on attach: pops any kitty keyboard protocol
/// entry and turns off xterm's modifyOtherKeys.  Combined with filtering these out
/// of application output, this keeps Ctrl keys arriving as plain control bytes, so
/// detach detection is reliable.
pub fn disable_kbd() -> (bytes: &'static [u8])
    ensures
        bytes@ == "\x1b[<1u\x1b[>4;0m".spec_bytes(),
{
    "\x1b[<1u\x1b[>4;0m".as_bytes()
}

/// Full cleanup on detach: shows the cursor, leaves the alternate screen, and turns
/// off input modes a program inside the session may have enabled (enhanced keyboard,
/// mouse reporting, bracketed paste), so the outer shell is left clean even when you
/// detach from inside that program.
pub fn reset_modes() -> (bytes: &'static [u8])
    ensures
        bytes@
            == "\x1b[?25h\x1b[?1049l\x1b[<1u\x1b[>4;0m\x1b[?1000l\x1b[?1002l\x1b[?1003l\x1b[?1006l\x1b[?2004l".spec_bytes(),
{
    "\x1b[?25h\x1b[?1049l\x1b[<1u\x1b[>4;0m\x1b[?1000l\x1b[?1002l\x1b[?1003l\x1b[?1006l\x1b[?2004l".as_bytes()
}

/// What forces the classic encoding is made of the very sequences that the filter
/// keeps applications from sending.
pub proof fn law_keyboard_reset_is_negotiation()
    ensures
        filter::strip("\x1b[<1u\x1b[>4;0m".spec_bytes()) == (Seq::<u8>::empty(), Seq::<u8>::empty()),
{
    let text = "\x1b[<1u\x1b[>4;0m";
    reveal_strlit("\x1b[<1u\x1b[>4;0m");
    vstd::utf8::is_ascii_chars_encode_utf8(text@);
    let bytes = text.spec_bytes();
    let pop = seq![0x1bu8, 0x5b, 0x3c, 0x31, 0x75];
    let off = seq![0x1bu8, 0x5b, 0x3e, 0x34, 0x3b, 0x30, 0x6d];
    assert(bytes =~= Seq::<u8>::empty() + pop + off);
    assert(Seq::<u8>::empty() + off =~= Seq::<u8>::empty() + off + Seq::<u8>::empty());
    filter::law_negotiation_is_removed(Seq::empty(), pop, off);
    filter::law_negotiation_is_removed(Seq::empty(), off, Seq::empty());
    assert(Seq::<u8>::empty() + Seq::<u8>::empty() =~= Seq::<u8>::empty());
    filter::law_plain_output_passes(Seq::empty());
}

} // verus!
