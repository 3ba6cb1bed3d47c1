//! What the keys of the keyboard and the buttons of the mouse stand for, key by key.
use vstd::prelude::*;
use crate::msg::input::{
    button_flags, change, char_of, key_of, left_down, make_code, middle_down, mouse_messages,
    right_down,
};
use crate::msg::message::{
    fresh, Message, WM_LBUTTONDOWN, WM_LBUTTONUP, WM_MBUTTONDOWN, WM_MBUTTONUP, WM_MOUSEMOVE,
    WM_RBUTTONDOWN, WM_RBUTTONUP,
};

verus! {

/// The keys of the navigation block: home, up, page up, left, right, end, down, page down
/// and delete, pressed or released.
pub proof fn law_navigation_keys(scancode: u8)
    ensures
        ({
            let key = key_of(make_code(scancode));
            &&& scancode % 128 == 0x47 ==> key == 0x24
            &&& scancode % 128 == 0x48 ==> key == 0x26
            &&& scancode % 128 == 0x49 ==> key == 0x21
            &&& scancode % 128 == 0x4B ==> key == 0x25
            &&& scancode % 128 == 0x4D ==> key == 0x27
            &&& scancode % 128 == 0x4F ==> key == 0x23
            &&& scancode % 128 == 0x50 ==> key == 0x28
            &&& scancode % 128 == 0x51 ==> key == 0x22
            &&& scancode % 128 == 0x53 ==> key == 0x2E
        }),
{
}

/// The keys that steer: escape, backspace, tab, enter, both shifts, control, alt and space.
pub proof fn law_control_keys(scancode: u8)
    ensures
        ({
            let key = key_of(make_code(scancode));
            &&& scancode % 128 == 0x01 ==> key == 0x1B
            &&& scancode % 128 == 0x0E ==> key == 0x08
            &&& scancode % 128 == 0x0F ==> key == 0x09
            &&& scancode % 128 == 0x1C ==> key == 0x0D
            &&& scancode % 128 == 0x2A ==> key == 0x10
            &&& scancode % 128 == 0x36 ==> key == 0x10
            &&& scancode % 128 == 0x1D ==> key == 0x11
            &&& scancode % 128 == 0x38 ==> key == 0x12
            &&& scancode % 128 == 0x39 ==> key == 0x20
        }),
{
}

/// The function keys give keys in a row, the first ten by scancodes in a row.
pub proof fn law_function_keys(scancode: u8)
    ensures
        ({
            let key = key_of(make_code(scancode));
            &&& 0x3B <= scancode % 128 <= 0x44 ==> key == scancode % 128 + 0x35
            &&& scancode % 128 == 0x57 ==> key == 0x7A
            &&& scancode % 128 == 0x58 ==> key == 0x7B
        }),
{
}

/// The digit keys give their digits, with 0 behind 9.
pub proof fn law_digit_keys(scancode: u8)
    ensures
        ({
            let key = key_of(make_code(scancode));
            &&& 0x02 <= scancode % 128 <= 0x0A ==> key == '0' as u64 + (scancode % 128 - 1)
            &&& scancode % 128 == 0x0B ==> key == '0' as u64
        }),
{
}

/// The letter keys give their letters, row by row.
pub proof fn law_letter_keys(scancode: u8)
    ensures
        ({
            let key = key_of(make_code(scancode));
            &&& scancode % 128 == 0x10 ==> key == 'Q' as u64
            &&& scancode % 128 == 0x11 ==> key == 'W' as u64
            &&& scancode % 128 == 0x12 ==> key == 'E' as u64
            &&& scancode % 128 == 0x13 ==> key == 'R' as u64
            &&& scancode % 128 == 0x14 ==> key == 'T' as u64
            &&& scancode % 128 == 0x15 ==> key == 'Y' as u64
            &&& scancode % 128 == 0x16 ==> key == 'U' as u64
            &&& scancode % 128 == 0x17 ==> key == 'I' as u64
            &&& scancode % 128 == 0x18 ==> key == 'O' as u64
            &&& scancode % 128 == 0x19 ==> key == 'P' as u64
            &&& scancode % 128 == 0x1E ==> key == 'A' as u64
            &&& scancode % 128 == 0x1F ==> key == 'S' as u64
            &&& scancode % 128 == 0x20 ==> key == 'D' as u64
            &&& scancode % 128 == 0x21 ==> key == 'F' as u64
            &&& scancode % 128 == 0x22 ==> key == 'G' as u64
            &&& scancode % 128 == 0x23 ==> key == 'H' as u64
            &&& scancode % 128 == 0x24 ==> key == 'J' as u64
            &&& scancode % 128 == 0x25 ==> key == 'K' as u64
            &&& scancode % 128 == 0x26 ==> key == 'L' as u64
            &&& scancode % 128 == 0x2C ==> key == 'Z' as u64
            &&& scancode % 128 == 0x2D ==> key == 'X' as u64
            &&& scancode % 128 == 0x2E ==> key == 'C' as u64
            &&& scancode % 128 == 0x2F ==> key == 'V' as u64
            &&& scancode % 128 == 0x30 ==> key == 'B' as u64
            &&& scancode % 128 == 0x31 ==> key == 'N' as u64
            &&& scancode % 128 == 0x32 ==> key == 'M' as u64
        }),
{
}

/// The keys with punctuation print what stands on them, without and with Shift.
pub proof fn law_punctuation_keys(scancode: u8)
    ensures
        ({
            let plain = char_of(key_of(make_code(scancode)), false);
            let shifted = char_of(key_of(make_code(scancode)), true);
            &&& scancode % 128 == 0x0C ==> plain == Some('-') && shifted == Some('_')
            &&& scancode % 128 == 0x0D ==> plain == Some('=') && shifted == Some('+')
            &&& scancode % 128 == 0x1A ==> plain == Some('[') && shifted == Some('{')
            &&& scancode % 128 == 0x1B ==> plain == Some(']') && shifted == Some('}')
            &&& scancode % 128 == 0x27 ==> plain == Some(';') && shifted == Some(':')
            &&& scancode % 128 == 0x28 ==> plain == Some('\'') && shifted == Some('"')
            &&& scancode % 128 == 0x29 ==> plain == Some('`') && shifted == Some('~')
            &&& scancode % 128 == 0x2B ==> plain == Some('\\') && shifted == Some('|')
            &&& scancode % 128 == 0x33 ==> plain == Some(',') && shifted == Some('<')
            &&& scancode % 128 == 0x34 ==> plain == Some('.') && shifted == Some('>')
            &&& scancode % 128 == 0x35 ==> plain == Some('/') && shifted == Some('?')
        }),
{
}

/// The virtual keys of the punctuation.
pub proof fn law_punctuation_codes(scancode: u8)
    ensures
        ({
            let key = key_of(make_code(scancode));
            &&& scancode % 128 == 0x0C ==> key == 0xBD
            &&& scancode % 128 == 0x0D ==> key == 0xBB
            &&& scancode % 128 == 0x1A ==> key == 0xDB
            &&& scancode % 128 == 0x1B ==> key == 0xDD
            &&& scancode % 128 == 0x27 ==> key == 0xBA
            &&& scancode % 128 == 0x28 ==> key == 0xDE
            &&& scancode % 128 == 0x29 ==> key == 0xC0
            &&& scancode % 128 == 0x2B ==> key == 0xDC
            &&& scancode % 128 == 0x33 ==> key == 0xBC
            &&& scancode % 128 == 0x34 ==> key == 0xBE
            &&& scancode % 128 == 0x35 ==> key == 0xBF
        }),
{
}

/// Two keys have one virtual key only where both are Shift; every scancode beside those of
/// the blocks above has none.
pub proof fn law_keys_are_told_apart(one: u8, other: u8)
    ensures
        ({
            let (a, b) = (one % 128, other % 128);
            let key = key_of(make_code(one));
            &&& a != b && key == key_of(make_code(other)) ==> key == 0 || (key == 0x10 && (a == 0x2A
                || a == 0x36) && (b == 0x2A || b == 0x36))
            &&& key == 0 <==> a == 0 || a == 0x37 || a == 0x3A || 0x45 <= a <= 0x46 || a == 0x4A
                || a == 0x4C || a == 0x4E || a == 0x52 || 0x54 <= a <= 0x56 || a > 0x58
        }),
{
    law_navigation_keys(one);
    law_navigation_keys(other);
    law_control_keys(one);
    law_control_keys(other);
    law_function_keys(one);
    law_function_keys(other);
    law_digit_keys(one);
    law_digit_keys(other);
    law_letter_keys(one);
    law_letter_keys(other);
    law_punctuation_codes(one);
    law_punctuation_codes(other);
}

/// A digit key prints its digit, and with Shift the sign above it.
pub proof fn law_digits_print(vk: u64)
    ensures
        0x30 <= vk <= 0x39 ==> char_of(vk, false) == Some(('0' as u64 + (vk - 0x30)) as char),
        vk == 0x30 ==> char_of(vk, true) == Some(')'),
        vk == 0x31 ==> char_of(vk, true) == Some('!'),
        vk == 0x32 ==> char_of(vk, true) == Some('@'),
        vk == 0x33 ==> char_of(vk, true) == Some('#'),
        vk == 0x34 ==> char_of(vk, true) == Some('$'),
        vk == 0x35 ==> char_of(vk, true) == Some('%'),
        vk == 0x36 ==> char_of(vk, true) == Some('^'),
        vk == 0x37 ==> char_of(vk, true) == Some('&'),
        vk == 0x38 ==> char_of(vk, true) == Some('*'),
        vk == 0x39 ==> char_of(vk, true) == Some('('),
{
}

/// A letter prints itself with Shift and its small letter without; the two differ by 32.
pub proof fn law_capitals_need_shift(vk: u64)
    requires
        'A' as u64 <= vk <= 'Z' as u64,
    ensures
        char_of(vk, true) == Some(vk as char),
        char_of(vk, false) == Some((vk + ('a' as u64 - 'A' as u64)) as char),
{
}

/// Space, enter, tab and backspace print the same with Shift and without; beside these, the
/// digits, the letters and the punctuation nothing prints.
pub proof fn law_other_keys_print(vk: u64, shift: bool)
    ensures
        vk == 0x20 ==> char_of(vk, shift) == Some(' '),
        vk == 0x0D ==> char_of(vk, shift) == Some('\n'),
        vk == 0x09 ==> char_of(vk, shift) == Some('\t'),
        vk == 0x08 ==> char_of(vk, shift) == Some('\x08'),
        char_of(vk, shift) is None <==> !(vk == 0x20 || vk == 0x0D || vk == 0x09 || vk == 0x08
            || 0x30 <= vk <= 0x39 || 0x41 <= vk <= 0x5A || 0xBA <= vk <= 0xC0 || 0xDB <= vk
            <= 0xDE),
{
}

/// Different keys that print, print different characters, whether Shift is held or not.
pub proof fn law_characters_are_told_apart(one: u64, other: u64, shift: bool)
    requires
        one != other,
        char_of(one, shift) is Some,
    ensures
        char_of(one, shift) != char_of(other, shift),
{
}

proof fn lemma_button_bits(b: u8)
    by (bit_vector)
    ensures
        (b & 0x01 != 0) == (b % 2 == 1),
        (b & 0x02 != 0) == (b / 2 % 2 == 1),
        (b & 0x04 != 0) == (b / 4 % 2 == 1),
{
}

/// How often a message of this number occurs.
pub open spec fn occurs(messages: Seq<Message>, msg: u32) -> nat
    decreases messages.len(),
{
    if messages.len() == 0 {
        0
    } else {
        occurs(messages.drop_last(), msg) + if messages.last().msg == msg {
            1nat
        } else {
            0
        }
    }
}

proof fn lemma_occurs_one(m: Message, msg: u32)
    ensures
        occurs(seq![m], msg) == if m.msg == msg {
            1nat
        } else {
            0
        },
{
    let s = seq![m];
    assert(s.drop_last() =~= Seq::<Message>::empty());
    assert(occurs(s.drop_last(), msg) == 0);
}

proof fn lemma_occurs_sum(a: Seq<Message>, b: Seq<Message>, msg: u32)
    ensures
        occurs(a + b, msg) == occurs(a, msg) + occurs(b, msg),
    decreases b.len(),
{
    if b.len() == 0 {
        assert(a + b =~= a);
    } else {
        assert((a + b).drop_last() =~= a + b.drop_last());
        lemma_occurs_sum(a, b.drop_last(), msg);
    }
}

/// A state of the mouse gives one move; one message that the left button went down where
/// bit 0 is new, and one that it went up where bit 0 is gone; for the right button the same with
/// bit 1, and for the middle one with bit 2; and no other message.
pub proof fn law_mouse_tells_every_change(lparam: u64, buttons: u8, prev: u8, msg: u32)
    ensures
        ({
            let (l, r, m) = (buttons % 2, buttons / 2 % 2, buttons / 4 % 2);
            let (pl, pr, pm) = (prev % 2, prev / 2 % 2, prev / 4 % 2);
            occurs(mouse_messages(lparam, buttons, prev), msg) == if msg == 0x200 || (msg == 0x201
                && l > pl) || (msg == 0x202 && l < pl) || (msg == 0x204 && r > pr) || (msg == 0x205
                && r < pr) || (msg == 0x207 && m > pm) || (msg == 0x208 && m < pm) {
                1nat
            } else {
                0
            }
        }),
{
    lemma_button_bits(buttons);
    lemma_button_bits(prev);
    let w = button_flags(buttons);
    let a = seq![fresh(0, WM_MOUSEMOVE, w, lparam)];
    let b = change(
        left_down(prev),
        left_down(buttons),
        WM_LBUTTONDOWN,
        WM_LBUTTONUP,
        w,
        lparam,
    );
    let c = change(
        right_down(prev),
        right_down(buttons),
        WM_RBUTTONDOWN,
        WM_RBUTTONUP,
        w,
        lparam,
    );
    let d = change(
        middle_down(prev),
        middle_down(buttons),
        WM_MBUTTONDOWN,
        WM_MBUTTONUP,
        w,
        lparam,
    );
    lemma_occurs_sum(a + b + c, d, msg);
    lemma_occurs_sum(a + b, c, msg);
    lemma_occurs_sum(a, b, msg);
    lemma_occurs_one(a[0], msg);
    lemma_occurs_one(b[0], msg);
    lemma_occurs_one(c[0], msg);
    lemma_occurs_one(d[0], msg);
    assert(b.len() > 0 ==> b =~= seq![b[0]]);
    assert(c.len() > 0 ==> c =~= seq![c[0]]);
    assert(d.len() > 0 ==> d =~= seq![d[0]]);
}

/// Every message of a state of the mouse carries the buttons that are down, the left one as 1,
/// the right one as 2 and the middle one as 16.
pub proof fn law_mouse_flags(lparam: u64, buttons: u8, prev: u8, i: int)
    requires
        0 <= i < mouse_messages(lparam, buttons, prev).len(),
    ensures
        ({
            let m = mouse_messages(lparam, buttons, prev)[i];
            &&& m.wparam == buttons % 2 + 2 * (buttons / 2 % 2) + 16 * (buttons / 4 % 2)
            &&& m.lparam == lparam
            &&& m.hwnd == 0
        }),
{
    lemma_button_bits(buttons);
}

} // verus!
