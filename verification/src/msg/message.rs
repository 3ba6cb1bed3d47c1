//! Window messages: their kinds, virtual keys and mouse flags.
use vstd::prelude::*;

verus! {

// General window messages.
pub const WM_NULL: u32 = 0x0000;
pub const WM_CREATE: u32 = 0x0001;
pub const WM_DESTROY: u32 = 0x0002;
pub const WM_MOVE: u32 = 0x0003;
pub const WM_SIZE: u32 = 0x0005;
pub const WM_ACTIVATE: u32 = 0x0006;
pub const WM_SETFOCUS: u32 = 0x0007;
pub const WM_KILLFOCUS: u32 = 0x0008;
pub const WM_ENABLE: u32 = 0x000A;
pub const WM_PAINT: u32 = 0x000F;
pub const WM_CLOSE: u32 = 0x0010;
pub const WM_QUIT: u32 = 0x0012;
pub const WM_ERASEBKGND: u32 = 0x0014;
pub const WM_SHOWWINDOW: u32 = 0x0018;
pub const WM_COMMAND: u32 = 0x0111;
pub const WM_TIMER: u32 = 0x0113;

// Keyboard messages.
pub const WM_KEYDOWN: u32 = 0x0100;
pub const WM_KEYUP: u32 = 0x0101;
pub const WM_CHAR: u32 = 0x0102;
pub const WM_SYSKEYDOWN: u32 = 0x0104;
pub const WM_SYSKEYUP: u32 = 0x0105;

// Mouse messages.
pub const WM_MOUSEMOVE: u32 = 0x0200;
pub const WM_LBUTTONDOWN: u32 = 0x0201;
pub const WM_LBUTTONUP: u32 = 0x0202;
pub const WM_RBUTTONDOWN: u32 = 0x0204;
pub const WM_RBUTTONUP: u32 = 0x0205;
pub const WM_MBUTTONDOWN: u32 = 0x0207;
pub const WM_MBUTTONUP: u32 = 0x0208;
pub const WM_MOUSEWHEEL: u32 = 0x020A;

// Messages of the window's frame.
pub const WM_NCHITTEST: u32 = 0x0084;
pub const WM_NCMOUSEMOVE: u32 = 0x00A0;
pub const WM_NCLBUTTONDOWN: u32 = 0x00A1;
pub const WM_NCLBUTTONUP: u32 = 0x00A2;

/// First message that programs may define for themselves.
pub const WM_USER: u32 = 0x0400;

// Virtual keys.  Letters and digits have their ASCII codes: 'A' is 0x41, '0' is 0x30.
pub const VK_BACK: u64 = 0x08;
pub const VK_TAB: u64 = 0x09;
pub const VK_RETURN: u64 = 0x0D;
pub const VK_SHIFT: u64 = 0x10;
pub const VK_CONTROL: u64 = 0x11;
pub const VK_ALT: u64 = 0x12;
pub const VK_ESCAPE: u64 = 0x1B;
pub const VK_SPACE: u64 = 0x20;
pub const VK_PAGEUP: u64 = 0x21;
pub const VK_PAGEDOWN: u64 = 0x22;
pub const VK_END: u64 = 0x23;
pub const VK_HOME: u64 = 0x24;
pub const VK_LEFT: u64 = 0x25;
pub const VK_UP: u64 = 0x26;
pub const VK_RIGHT: u64 = 0x27;
pub const VK_DOWN: u64 = 0x28;
pub const VK_DELETE: u64 = 0x2E;
pub const VK_F1: u64 = 0x70;
pub const VK_F2: u64 = 0x71;
pub const VK_F3: u64 = 0x72;
pub const VK_F4: u64 = 0x73;
pub const VK_F5: u64 = 0x74;
pub const VK_F6: u64 = 0x75;
pub const VK_F7: u64 = 0x76;
pub const VK_F8: u64 = 0x77;
pub const VK_F9: u64 = 0x78;
pub const VK_F10: u64 = 0x79;
pub const VK_F11: u64 = 0x7A;
pub const VK_F12: u64 = 0x7B;

// Virtual keys of the punctuation keys.
/// `;` and `:`.
pub const VK_OEM_1: u64 = 0xBA;
/// `=` and `+`.
pub const VK_OEM_PLUS: u64 = 0xBB;
/// `,` and `<`.
pub const VK_OEM_COMMA: u64 = 0xBC;
/// `-` and `_`.
pub const VK_OEM_MINUS: u64 = 0xBD;
/// `.` and `>`.
pub const VK_OEM_PERIOD: u64 = 0xBE;
/// `/` and `?`.
pub const VK_OEM_2: u64 = 0xBF;
/// The back quote and `~`.
pub const VK_OEM_3: u64 = 0xC0;
/// `[` and `{`.
pub const VK_OEM_4: u64 = 0xDB;
/// `\` and `|`.
pub const VK_OEM_5: u64 = 0xDC;
/// `]` and `}`.
pub const VK_OEM_6: u64 = 0xDD;
/// The single and the double quote.
pub const VK_OEM_7: u64 = 0xDE;

// Flags in the first parameter of a mouse message.
pub const MK_LBUTTON: u64 = 0x0001;
pub const MK_RBUTTON: u64 = 0x0002;
pub const MK_SHIFT: u64 = 0x0004;
pub const MK_CONTROL: u64 = 0x0008;
pub const MK_MBUTTON: u64 = 0x0010;

/// A window message.
#[derive(Clone, Copy, PartialEq, Eq, Structural, Debug)]
pub struct Message {
    /// Window that it is for; 0 for a message to the thread or the system.
    pub hwnd: u64,
    /// Its kind, one of the `WM_` constants.
    pub msg: u32,
    /// First parameter, such as a virtual key.
    pub wparam: u64,
    /// Second parameter, such as packed coordinates.
    pub lparam: u64,
    /// Tick at which it was posted.
    pub time: u64,
    /// Where the cursor was when it was posted.
    pub pt_x: i32,
    pub pt_y: i32,
}

/// A message that has not been posted yet.
pub open spec fn fresh(hwnd: u64, msg: u32, wparam: u64, lparam: u64) -> Message {
    Message { hwnd, msg, wparam, lparam, time: 0, pt_x: 0, pt_y: 0 }
}

impl Message {
    /// A message with these parameters.  Its time and cursor position are zero; posting
    /// it fills them in.
    pub fn new(hwnd: u64, msg: u32, wparam: u64, lparam: u64) -> (r: Message)
        ensures
            r == fresh(hwnd, msg, wparam, lparam),
    {
        Message { hwnd, msg, wparam, lparam, time: 0, pt_x: 0, pt_y: 0 }
    }

    /// Whether this is a mouse message.
    pub fn is_mouse_message(&self) -> (r: bool)
        ensures
            r == (WM_MOUSEMOVE <= self.msg <= WM_MOUSEWHEEL),
            r == (0x0200 <= self.msg <= 0x020A),
    {
        self.msg >= WM_MOUSEMOVE && self.msg <= WM_MOUSEWHEEL
    }

    /// Whether this is a keyboard message.
    pub fn is_keyboard_message(&self) -> (r: bool)
        ensures
            r == (WM_KEYDOWN <= self.msg <= WM_SYSKEYUP),
            r == (0x0100 <= self.msg <= 0x0105),
    {
        self.msg >= WM_KEYDOWN && self.msg <= WM_SYSKEYUP
    }
}

/// Two's complement code of a coordinate, in 32 bits.
pub open spec fn coded(v: i32) -> int {
    if v >= 0 {
        v as int
    } else {
        v + 0x1_0000_0000
    }
}

/// The coordinate with this code.
pub open spec fn decoded(w: int) -> int {
    if w < 0x8000_0000 {
        w
    } else {
        w - 0x1_0000_0000
    }
}

/// Packs a point: `x` in the low and `y` in the high 32 bits.
pub fn make_lparam(x: i32, y: i32) -> (r: u64)
    ensures
        r == coded(y) * 0x1_0000_0000 + coded(x),
{
    let lo: u64 = x as u32 as u64;
    let hi: u64 = y as u32 as u64;
    let r: u64 = (hi << 32) | lo;
    proof {
        assert(x >= 0 ==> x as u32 == x) by (bit_vector);
        assert(x < 0 ==> x as u32 == x + 0x1_0000_0000) by (bit_vector);
        assert(y >= 0 ==> y as u32 == y) by (bit_vector);
        assert(y < 0 ==> y as u32 == y + 0x1_0000_0000) by (bit_vector);
        assert((hi << 32) | lo == hi * 0x1_0000_0000 + lo) by (bit_vector)
            requires
                hi <= 0xFFFF_FFFF,
                lo <= 0xFFFF_FFFF,
        ;
    }
    r
}

/// The `x` of a packed point.
pub fn get_x_lparam(lparam: u64) -> (r: i32)
    ensures
        r == decoded(lparam as int % 0x1_0000_0000),
{
    let w: u64 = lparam & 0xFFFF_FFFF;
    proof {
        assert(lparam & 0xFFFF_FFFF == lparam % 0x1_0000_0000) by (bit_vector);
        lemma_signed(w);
    }
    #[verifier::truncate]
    (w as i32)
}

/// The `y` of a packed point.
pub fn get_y_lparam(lparam: u64) -> (r: i32)
    ensures
        r == decoded(lparam as int / 0x1_0000_0000),
{
    let w: u64 = (lparam >> 32) & 0xFFFF_FFFF;
    proof {
        assert((lparam >> 32) & 0xFFFF_FFFF == lparam / 0x1_0000_0000) by (bit_vector);
        lemma_signed(w);
    }
    #[verifier::truncate]
    (w as i32)
}

/// Cutting a number down to a signed 32-bit integer decodes it.
proof fn lemma_signed(w: u64)
    requires
        w <= 0xFFFF_FFFF,
    ensures
        w as i32 == decoded(w as int),
{
    assert(w < 0x8000_0000 ==> w as i32 == w) by (bit_vector);
    assert(0x8000_0000 <= w <= 0xFFFF_FFFF ==> w as i32 == w - 0x1_0000_0000) by (bit_vector);
}

/// A packed point gives back both its coordinates.
pub proof fn law_packed_point_is_recovered(x: i32, y: i32, lparam: u64)
    requires
        lparam == coded(y) * 0x1_0000_0000 + coded(x),
    ensures
        decoded(lparam as int % 0x1_0000_0000) == x,
        decoded(lparam as int / 0x1_0000_0000) == y,
{
}

} // verus!
