//! Terminal attributes and the switch to raw mode.
use vstd::prelude::*;

verus! {

/// Terminal attributes (Linux layout).
#[derive(Clone, Copy)]
pub struct Termios {
    pub c_iflag: u32,
    pub c_oflag: u32,
    pub c_cflag: u32,
    pub c_lflag: u32,
    pub c_line: u8,
    pub c_cc: [u8; 32],
    pub c_ispeed: u32,
    pub c_ospeed: u32,
}

pub const BRKINT: u32 = 0x2;
pub const ICRNL: u32 = 0x100;
pub const INPCK: u32 = 0x10;
pub const ISTRIP: u32 = 0x20;
pub const IXON: u32 = 0x400;
pub const OPOST: u32 = 0x1;
pub const CS8: u32 = 0x30;
pub const ECHO: u32 = 0x8;
pub const ICANON: u32 = 0x2;
pub const IEXTEN: u32 = 0x8000;
pub const ISIG: u32 = 0x1;
pub const VMIN: usize = 6;
pub const VTIME: usize = 5;

/// Turns off input translation, output processing, echo, canonical mode and
/// signals; reads return after one byte with no timeout.
pub fn make_raw(t: &mut Termios)
    ensures
        final(t).c_iflag == old(t).c_iflag & !(BRKINT | ICRNL | INPCK | ISTRIP | IXON),
        final(t).c_oflag == old(t).c_oflag & !OPOST,
        final(t).c_cflag == old(t).c_cflag | CS8,
        final(t).c_lflag == old(t).c_lflag & !(ECHO | ICANON | IEXTEN | ISIG),
        final(t).c_cc@ == old(t).c_cc@.update(VMIN as int, 1u8).update(VTIME as int, 0u8),
        final(t).c_line == old(t).c_line,
        final(t).c_ispeed == old(t).c_ispeed,
        final(t).c_ospeed == old(t).c_ospeed,
{
    t.c_iflag = t.c_iflag & !(BRKINT | ICRNL | INPCK | ISTRIP | IXON);
    t.c_oflag = t.c_oflag & !OPOST;
    t.c_cflag = t.c_cflag | CS8;
    t.c_lflag = t.c_lflag & !(ECHO | ICANON | IEXTEN | ISIG);
    t.c_cc[VMIN] = 1;
    t.c_cc[VTIME] = 0;
}

} // verus!
