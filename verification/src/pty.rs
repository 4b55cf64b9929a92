//! Window sizes of pseudo-terminals.

use vstd::prelude::*;

verus! {

/// A window size, with the fields of `struct winsize`.
#[derive(Debug, Clone, Copy, PartialEq, Eq, Structural)]
pub struct Winsize {
    pub ws_row: u16,
    pub ws_col: u16,
    pub ws_xpixel: u16,
    pub ws_ypixel: u16,
}

/// The size to work with, given what the terminal answered to a size query
/// (`None`: it is not a terminal).  Falls back to a sane 80x24 when there is no
/// answer or when the answer has no rows or no columns.
pub open spec fn usable_winsize(answer: Option<Winsize>) -> Winsize {
    match answer {
        None => Winsize { ws_row: 24, ws_col: 80, ws_xpixel: 0, ws_ypixel: 0 },
        Some(ws) => if ws.ws_row == 0 || ws.ws_col == 0 {
            Winsize { ws_row: 24, ws_col: 80, ..ws }
        } else {
            ws
        },
    }
}

pub fn get_winsize(answer: Option<Winsize>) -> (ws: Winsize)
    ensures
        ws == usable_winsize(answer),
        ws.ws_row > 0 && ws.ws_col > 0,
{
    match answer {
        None => Winsize { ws_row: 24, ws_col: 80, ws_xpixel: 0, ws_ypixel: 0 },
        Some(ws) => {
            if ws.ws_row == 0 || ws.ws_col == 0 {
                Winsize {
                    ws_row: 24,
                    ws_col: 80,
                    ws_xpixel: ws.ws_xpixel,
                    ws_ypixel: ws.ws_ypixel,
                }
            } else {
                ws
            }
        },
    }
}

/// A size of the given rows and columns (as carried by a `Resize` packet).
pub fn winsize_from(rows: u16, cols: u16) -> (ws: Winsize)
    ensures
        ws == (Winsize { ws_row: rows, ws_col: cols, ws_xpixel: 0, ws_ypixel: 0 }),
{
    Winsize { ws_row: rows, ws_col: cols, ws_xpixel: 0, ws_ypixel: 0 }
}

/// The size that is worked with always has rows and columns: those of the terminal
/// where it gave both, 24 and 80 otherwise.  The size in pixels is the terminal's.
pub proof fn law_sizes_are_usable(answer: Option<Winsize>)
    ensures
        ({
            let ws = usable_winsize(answer);
            match answer {
                Some(given) => {
                    &&& ws.ws_xpixel == given.ws_xpixel && ws.ws_ypixel == given.ws_ypixel
                    &&& given.ws_row > 0 && given.ws_col > 0 ==> ws == given
                    &&& given.ws_row == 0 || given.ws_col == 0 ==> ws.ws_row == 24 && ws.ws_col
                        == 80
                },
                None => ws.ws_row == 24 && ws.ws_col == 80 && ws.ws_xpixel == 0 && ws.ws_ypixel
                    == 0,
            }
        }),
{
}

} // verus!
