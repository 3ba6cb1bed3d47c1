//! Translation of raw input events to window messages.
//!
//! Scancodes are those of a PS/2 keyboard in set 1.
use vstd::prelude::*;
use crate::msg::message::{
    coded, fresh, make_lparam, Message, MK_LBUTTON, MK_MBUTTON, MK_RBUTTON, VK_ALT, VK_BACK,
    VK_CONTROL, VK_DELETE, VK_DOWN, VK_END, VK_ESCAPE, VK_F1, VK_F11, VK_F12, VK_HOME, VK_LEFT,
    VK_OEM_1, VK_OEM_2, VK_OEM_3, VK_OEM_4, VK_OEM_5, VK_OEM_6, VK_OEM_7, VK_OEM_COMMA,
    VK_OEM_MINUS, VK_OEM_PERIOD, VK_OEM_PLUS, VK_PAGEDOWN, VK_PAGEUP, VK_RETURN, VK_RIGHT,
    VK_SHIFT, VK_SPACE, VK_TAB, VK_UP, WM_KEYDOWN, WM_KEYUP, WM_LBUTTONDOWN, WM_LBUTTONUP,
    WM_MBUTTONDOWN, WM_MBUTTONUP, WM_MOUSEMOVE, WM_RBUTTONDOWN, WM_RBUTTONUP,
};

verus! {

/// Letters of the upper row, from scancode 0x10 on.
pub open spec fn upper_row() -> Seq<char> {
    seq!['Q', 'W', 'E', 'R', 'T', 'Y', 'U', 'I', 'O', 'P']
}

/// Letters of the home row, from scancode 0x1E on.
pub open spec fn home_row() -> Seq<char> {
    seq!['A', 'S', 'D', 'F', 'G', 'H', 'J', 'K', 'L']
}

/// Letters of the lower row, from scancode 0x2C on.
pub open spec fn lower_row() -> Seq<char> {
    seq!['Z', 'X', 'C', 'V', 'B', 'N', 'M']
}

/// Virtual key of the key with this make code; 0 for a key that has none.
pub open spec fn key_of(code: u8) -> u64 {
    if 0x02 <= code <= 0x0A {
        (0x31 + (code - 0x02)) as u64
    } else if code == 0x0B {
        0x30
    } else if 0x10 <= code <= 0x19 {
        upper_row()[code - 0x10] as u64
    } else if 0x1E <= code <= 0x26 {
        home_row()[code - 0x1E] as u64
    } else if 0x2C <= code <= 0x32 {
        lower_row()[code - 0x2C] as u64
    } else if 0x3B <= code <= 0x44 {
        (VK_F1 + (code - 0x3B)) as u64
    } else {
        match code {
            0x01u8 => VK_ESCAPE,
            0x0Cu8 => VK_OEM_MINUS,
            0x0Du8 => VK_OEM_PLUS,
            0x0Eu8 => VK_BACK,
            0x0Fu8 => VK_TAB,
            0x1Au8 => VK_OEM_4,
            0x1Bu8 => VK_OEM_6,
            0x1Cu8 => VK_RETURN,
            0x1Du8 => VK_CONTROL,
            0x27u8 => VK_OEM_1,
            0x28u8 => VK_OEM_7,
            0x29u8 => VK_OEM_3,
            0x2Au8 => VK_SHIFT,
            0x2Bu8 => VK_OEM_5,
            0x33u8 => VK_OEM_COMMA,
            0x34u8 => VK_OEM_PERIOD,
            0x35u8 => VK_OEM_2,
            0x36u8 => VK_SHIFT,
            0x38u8 => VK_ALT,
            0x39u8 => VK_SPACE,
            0x47u8 => VK_HOME,
            0x48u8 => VK_UP,
            0x49u8 => VK_PAGEUP,
            0x4Bu8 => VK_LEFT,
            0x4Du8 => VK_RIGHT,
            0x4Fu8 => VK_END,
            0x50u8 => VK_DOWN,
            0x51u8 => VK_PAGEDOWN,
            0x53u8 => VK_DELETE,
            0x57u8 => VK_F11,
            0x58u8 => VK_F12,
            _ => 0,
        }
    }
}

/// The make code of a key: its scancode without the mark of a release.
pub open spec fn make_code(scancode: u8) -> u8 {
    scancode % 0x80
}

/// Maps a scancode to its virtual key; 0 for a scancode that has none.
pub fn scancode_to_vk(scancode: u8) -> (r: u64)
    ensures
        r == key_of(make_code(scancode)),
{
    let code: u8 = scancode & 0x7F;
    proof {
        assert(scancode & 0x7F == scancode % 0x80) by (bit_vector);
    }
    match code {
        0x01 => VK_ESCAPE,
        0x0E => VK_BACK,
        0x0F => VK_TAB,
        0x1C => VK_RETURN,
        0x2A | 0x36 => VK_SHIFT,
        0x1D => VK_CONTROL,
        0x38 => VK_ALT,
        0x39 => VK_SPACE,
        0x48 => VK_UP,
        0x4B => VK_LEFT,
        0x4D => VK_RIGHT,
        0x50 => VK_DOWN,
        0x47 => VK_HOME,
        0x4F => VK_END,
        0x49 => VK_PAGEUP,
        0x51 => VK_PAGEDOWN,
        0x53 => VK_DELETE,
        0x3B..=0x44 => VK_F1 + (code as u64 - 0x3B),
        0x57 => VK_F11,
        0x58 => VK_F12,
        0x02..=0x0B => {
            if code == 0x0B {
                0x30
            } else {
                0x30 + code as u64 - 1
            }
        },
        0x10 => 0x51,
        0x11 => 0x57,
        0x12 => 0x45,
        0x13 => 0x52,
        0x14 => 0x54,
        0x15 => 0x59,
        0x16 => 0x55,
        0x17 => 0x49,
        0x18 => 0x4F,
        0x19 => 0x50,
        0x1E => 0x41,
        0x1F => 0x53,
        0x20 => 0x44,
        0x21 => 0x46,
        0x22 => 0x47,
        0x23 => 0x48,
        0x24 => 0x4A,
        0x25 => 0x4B,
        0x26 => 0x4C,
        0x2C => 0x5A,
        0x2D => 0x58,
        0x2E => 0x43,
        0x2F => 0x56,
        0x30 => 0x42,
        0x31 => 0x4E,
        0x32 => 0x4D,
        0x27 => VK_OEM_1,
        0x0D => VK_OEM_PLUS,
        0x33 => VK_OEM_COMMA,
        0x0C => VK_OEM_MINUS,
        0x34 => VK_OEM_PERIOD,
        0x35 => VK_OEM_2,
        0x29 => VK_OEM_3,
        0x1A => VK_OEM_4,
        0x2B => VK_OEM_5,
        0x1B => VK_OEM_6,
        0x28 => VK_OEM_7,
        _ => 0,
    }
}

/// The message for a key that goes down (`pressed`) or up.
///
/// A scancode without a virtual key has none.
pub fn translate_scancode(scancode: u8, pressed: bool) -> (r: Option<Message>)
    ensures
        r == (if key_of(make_code(scancode)) == 0 {
            None
        } else {
            Some(
                fresh(
                    0,
                    if pressed {
                        WM_KEYDOWN
                    } else {
                        WM_KEYUP
                    },
                    key_of(make_code(scancode)),
                    scancode as u64,
                ),
            )
        }),
        r matches Some(m) ==> {
            &&& pressed ==> m.msg == 0x0100
            &&& !pressed ==> m.msg == 0x0101
            &&& m.lparam == scancode
            &&& m.wparam != 0
            &&& m.hwnd == 0
        },
{
    let vk: u64 = scancode_to_vk(scancode);
    if vk == 0 {
        return None;
    }
    let kind: u32 = if pressed {
        WM_KEYDOWN
    } else {
        WM_KEYUP
    };
    Some(Message::new(0, kind, vk, scancode as u64))
}

/// The left button is down in this state of the buttons.
pub open spec fn left_down(buttons: u8) -> bool {
    buttons & 0x01 != 0
}

/// The right button is down.
pub open spec fn right_down(buttons: u8) -> bool {
    buttons & 0x02 != 0
}

/// The middle button is down.
pub open spec fn middle_down(buttons: u8) -> bool {
    buttons & 0x04 != 0
}

/// The flags of the buttons that are down.
pub open spec fn button_flags(buttons: u8) -> u64 {
    ((if left_down(buttons) {
        MK_LBUTTON as int
    } else {
        0
    }) + (if right_down(buttons) {
        MK_RBUTTON as int
    } else {
        0
    }) + (if middle_down(buttons) {
        MK_MBUTTON as int
    } else {
        0
    })) as u64
}

/// What a button contributes: a message where its state has changed.
pub open spec fn change(before: bool, after: bool, down: u32, up: u32, wparam: u64, lparam: u64) -> Seq<
    Message,
> {
    if after && !before {
        seq![fresh(0, down, wparam, lparam)]
    } else if before && !after {
        seq![fresh(0, up, wparam, lparam)]
    } else {
        Seq::empty()
    }
}

/// The messages for a state of the mouse, given the buttons of the state before.
pub open spec fn mouse_messages(lparam: u64, buttons: u8, prev_buttons: u8) -> Seq<Message> {
    let w = button_flags(buttons);
    seq![fresh(0, WM_MOUSEMOVE, w, lparam)] + change(
        left_down(prev_buttons),
        left_down(buttons),
        WM_LBUTTONDOWN,
        WM_LBUTTONUP,
        w,
        lparam,
    ) + change(
        right_down(prev_buttons),
        right_down(buttons),
        WM_RBUTTONDOWN,
        WM_RBUTTONUP,
        w,
        lparam,
    ) + change(
        middle_down(prev_buttons),
        middle_down(buttons),
        WM_MBUTTONDOWN,
        WM_MBUTTONUP,
        w,
        lparam,
    )
}

/// Adds the message of a button whose state has changed.
fn push_change(
    messages: &mut Vec<Message>,
    before: bool,
    after: bool,
    down: u32,
    up: u32,
    wparam: u64,
    lparam: u64,
)
    ensures
        final(messages)@ == old(messages)@ + change(before, after, down, up, wparam, lparam),
{
    if after && !before {
        messages.push(Message::new(0, down, wparam, lparam));
    }
    if !after && before {
        messages.push(Message::new(0, up, wparam, lparam));
    }
    proof {
        assert(messages@ =~= old(messages)@ + change(before, after, down, up, wparam, lparam));
    }
}

/// The messages for a state of the mouse: always a move, then one for each button that
/// went down or up since the state before.
///
/// Bit 0 of the buttons is the left one, bit 1 the right, bit 2 the middle.
pub fn translate_mouse(x: i32, y: i32, buttons: u8, prev_buttons: u8) -> (r: Vec<Message>)
    ensures
        r@ == mouse_messages(
            (coded(y) * 0x1_0000_0000 + coded(x)) as u64,
            buttons,
            prev_buttons,
        ),
{
    let mut messages: Vec<Message> = Vec::new();
    let lparam: u64 = make_lparam(x, y);
    let left: bool = buttons & 0x01 != 0;
    let right: bool = buttons & 0x02 != 0;
    let middle: bool = buttons & 0x04 != 0;
    let l: u64 = if left {
        MK_LBUTTON
    } else {
        0
    };
    let r: u64 = if right {
        MK_RBUTTON
    } else {
        0
    };
    let m: u64 = if middle {
        MK_MBUTTON
    } else {
        0
    };
    let wparam: u64 = l + r + m;
    messages.push(Message::new(0, WM_MOUSEMOVE, wparam, lparam));
    proof {
        assert(messages@ =~= seq![fresh(0, WM_MOUSEMOVE, wparam, lparam)]);
    }
    push_change(
        &mut messages,
        prev_buttons & 0x01 != 0,
        left,
        WM_LBUTTONDOWN,
        WM_LBUTTONUP,
        wparam,
        lparam,
    );
    push_change(
        &mut messages,
        prev_buttons & 0x02 != 0,
        right,
        WM_RBUTTONDOWN,
        WM_RBUTTONUP,
        wparam,
        lparam,
    );
    push_change(
        &mut messages,
        prev_buttons & 0x04 != 0,
        middle,
        WM_MBUTTONDOWN,
        WM_MBUTTONUP,
        wparam,
        lparam,
    );
    messages
}

/// What the digit keys give with Shift, from 0 to 9.
pub open spec fn shifted_digits() -> Seq<char> {
    seq![')', '!', '@', '#', '$', '%', '^', '&', '*', '(']
}

/// Without and with Shift.
pub open spec fn pick(shift: bool, plain: char, shifted: char) -> Option<char> {
    if shift {
        Some(shifted)
    } else {
        Some(plain)
    }
}

/// The character that a virtual key stands for.
pub open spec fn char_of(vk: u64, shift: bool) -> Option<char> {
    if 0x30 <= vk <= 0x39 {
        pick(shift, vk as char, shifted_digits()[vk - 0x30])
    } else if 0x41 <= vk <= 0x5A {
        pick(shift, (vk + 32) as char, vk as char)
    } else {
        match vk {
            VK_OEM_1 => pick(shift, ';', ':'),
            VK_OEM_PLUS => pick(shift, '=', '+'),
            VK_OEM_COMMA => pick(shift, ',', '<'),
            VK_OEM_MINUS => pick(shift, '-', '_'),
            VK_OEM_PERIOD => pick(shift, '.', '>'),
            VK_OEM_2 => pick(shift, '/', '?'),
            VK_OEM_3 => pick(shift, '`', '~'),
            VK_OEM_4 => pick(shift, '[', '{'),
            VK_OEM_5 => pick(shift, '\\', '|'),
            VK_OEM_6 => pick(shift, ']', '}'),
            VK_OEM_7 => pick(shift, '\'', '"'),
            VK_SPACE => Some(' '),
            VK_RETURN => Some('\n'),
            VK_TAB => Some('\t'),
            VK_BACK => Some('\x08'),
            _ => None,
        }
    }
}

/// The character that a virtual key stands for, with Shift held or not.
///
/// A key that prints nothing has none.
pub fn vk_to_char(vk: u64, shift: bool) -> (r: Option<char>)
    ensures
        r == char_of(vk, shift),
{
    match vk {
        0x30 if shift => Some(')'),
        0x31 if shift => Some('!'),
        0x32 if shift => Some('@'),
        0x33 if shift => Some('#'),
        0x34 if shift => Some('$'),
        0x35 if shift => Some('%'),
        0x36 if shift => Some('^'),
        0x37 if shift => Some('&'),
        0x38 if shift => Some('*'),
        0x39 if shift => Some('('),
        0x30..=0x39 => Some((vk as u8) as char),
        0x41..=0x5A => {
            let ch: u8 = if shift {
                vk as u8
            } else {
                vk as u8 + 32
            };
            Some(ch as char)
        },
        VK_OEM_1 => Some(if shift { ':' } else { ';' }),
        VK_OEM_PLUS => Some(if shift { '+' } else { '=' }),
        VK_OEM_COMMA => Some(if shift { '<' } else { ',' }),
        VK_OEM_MINUS => Some(if shift { '_' } else { '-' }),
        VK_OEM_PERIOD => Some(if shift { '>' } else { '.' }),
        VK_OEM_2 => Some(if shift { '?' } else { '/' }),
        VK_OEM_3 => Some(if shift { '~' } else { '`' }),
        VK_OEM_4 => Some(if shift { '{' } else { '[' }),
        VK_OEM_5 => Some(if shift { '|' } else { '\\' }),
        VK_OEM_6 => Some(if shift { '}' } else { ']' }),
        VK_OEM_7 => Some(if shift { '"' } else { '\'' }),
        VK_SPACE => Some(' '),
        VK_RETURN => Some('\n'),
        VK_TAB => Some('\t'),
        VK_BACK => Some('\x08'),
        _ => None,
    }
}

/// A key gives the same virtual key when it goes down as when it goes up.
pub proof fn law_release_names_the_same_key(code: u8, release: u8)
    requires
        code < 0x80,
        release == code + 0x80,
    ensures
        key_of(make_code(code)) == key_of(make_code(release)),
{
}

/// Every letter key prints its letter: small, or capital with Shift.
pub proof fn law_letters_print(code: u8)
    requires
        0x10 <= code <= 0x19 || 0x1E <= code <= 0x26 || 0x2C <= code <= 0x32,
    ensures
        0x41 <= key_of(code) <= 0x5A,
        char_of(key_of(code), true) == Some(key_of(code) as char),
        char_of(key_of(code), false) == Some((key_of(code) + 32) as char),
{
}

/// A mouse whose buttons stay as they were only moves.
pub proof fn law_steady_buttons_only_move(lparam: u64, buttons: u8)
    ensures
        mouse_messages(lparam, buttons, buttons) == seq![
            fresh(0, WM_MOUSEMOVE, button_flags(buttons), lparam),
        ],
{
    assert(mouse_messages(lparam, buttons, buttons) =~= seq![
        fresh(0, WM_MOUSEMOVE, button_flags(buttons), lparam),
    ]);
}

/// A move and at most one message for each button: every message carries the same point
/// and flags.
pub proof fn law_mouse_messages_agree(lparam: u64, buttons: u8, prev_buttons: u8)
    ensures
        1 <= mouse_messages(lparam, buttons, prev_buttons).len() <= 4,
        mouse_messages(lparam, buttons, prev_buttons)[0].msg == WM_MOUSEMOVE,
        forall|i: int|
            0 <= i < mouse_messages(lparam, buttons, prev_buttons).len() ==> {
                let m = #[trigger] mouse_messages(lparam, buttons, prev_buttons)[i];
                m.lparam == lparam && m.wparam == button_flags(buttons) && m.hwnd == 0
            },
{
}

} // verus!
