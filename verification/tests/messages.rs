//! Window messages: queues, dispatch and input translation.
use astryx_kernel::msg;
use astryx_kernel::msg::dispatch::{
    def_window_proc, dispatch_message, get_window_proc, next_dispatch, post_quit_message,
    process_messages, send_message, set_window_proc, Dispatched, Procs,
};
use astryx_kernel::msg::input::{scancode_to_vk, translate_mouse, translate_scancode, vk_to_char};
use astryx_kernel::msg::message::{
    get_x_lparam, get_y_lparam, make_lparam, Message, MK_LBUTTON, MK_MBUTTON, MK_RBUTTON, VK_ALT,
    VK_BACK, VK_CONTROL, VK_DELETE, VK_DOWN, VK_ESCAPE, VK_F1, VK_F10, VK_F11, VK_F12, VK_HOME,
    VK_LEFT, VK_OEM_1, VK_OEM_2, VK_OEM_3, VK_OEM_4, VK_OEM_5, VK_OEM_6, VK_OEM_7, VK_OEM_COMMA,
    VK_OEM_MINUS, VK_OEM_PERIOD, VK_OEM_PLUS, VK_RETURN, VK_SHIFT, VK_SPACE, VK_TAB, VK_UP,
    WM_CHAR, WM_CLOSE, WM_COMMAND, WM_DESTROY, WM_ERASEBKGND, WM_KEYDOWN, WM_KEYUP,
    WM_LBUTTONDOWN, WM_LBUTTONUP, WM_MBUTTONDOWN, WM_MBUTTONUP, WM_MOUSEMOVE, WM_MOUSEWHEEL,
    WM_PAINT, WM_QUIT, WM_RBUTTONDOWN, WM_RBUTTONUP, WM_SYSKEYUP, WM_TIMER, WM_USER,
};
use astryx_kernel::msg::queue::{
    all_handles, broadcast_message, create_queue, destroy_queue, get_message, get_system_message,
    has_messages, peek_message, post_message, post_system_message, total_queued_messages,
    MessageQueue, Queues, Stamp,
};

fn started() -> (Queues, Procs) {
    let mut q = Queues::new();
    let mut p = Procs::new();
    msg::init(&mut q, &mut p);
    (q, p)
}

#[test]
fn points_pack_and_unpack() {
    assert_eq!(make_lparam(5, 7), 0x0000_0007_0000_0005);
    assert_eq!(make_lparam(-1, 2), 0x0000_0002_FFFF_FFFF);
    for (x, y) in [(0, 0), (-1, -1), (i32::MIN, i32::MAX), (i32::MAX, i32::MIN), (640, -480)] {
        let l = make_lparam(x, y);
        assert_eq!((get_x_lparam(l), get_y_lparam(l)), (x, y));
    }
}

#[test]
fn messages_know_their_class() {
    let m = Message::new(3, WM_KEYDOWN, 1, 2);
    assert_eq!((m.hwnd, m.msg, m.wparam, m.lparam, m.time, m.pt_x, m.pt_y), (3, WM_KEYDOWN, 1, 2, 0, 0, 0));
    assert!(m.is_keyboard_message() && !m.is_mouse_message());
    assert!(Message::new(0, WM_SYSKEYUP, 0, 0).is_keyboard_message());
    assert!(!Message::new(0, WM_SYSKEYUP + 1, 0, 0).is_keyboard_message());
    assert!(Message::new(0, WM_MOUSEMOVE, 0, 0).is_mouse_message());
    assert!(Message::new(0, WM_MOUSEWHEEL, 0, 0).is_mouse_message());
    assert!(!Message::new(0, WM_MOUSEWHEEL + 1, 0, 0).is_mouse_message());
    assert!(!Message::new(0, WM_CHAR - 3, 0, 0).is_keyboard_message());
}

#[test]
fn queue_is_first_in_first_out_with_repaints_and_timers_last() {
    let mut q = MessageQueue::new();
    assert!(q.is_empty());
    assert!(q.push(Message::new(1, WM_TIMER, 0, 0)));
    assert!(q.push(Message::new(1, WM_PAINT, 0, 0)));
    assert!(q.push(Message::new(1, WM_PAINT, 0, 0)));
    assert_eq!(q.len(), 0);
    assert!(!q.is_empty());
    assert!(q.peek().is_none());
    assert!(q.push(Message::new(1, WM_USER, 1, 0)));
    assert!(q.push(Message::new(1, WM_USER, 2, 0)));
    assert_eq!(q.len(), 2);
    assert_eq!(q.peek().map(|m| m.wparam), Some(1));
    assert_eq!(q.pop().map(|m| m.wparam), Some(1));
    assert_eq!(q.pop().map(|m| m.wparam), Some(2));
    assert_eq!(q.pop(), Some(Message::new(0, WM_PAINT, 0, 0)));
    assert_eq!(q.pop(), Some(Message::new(0, WM_TIMER, 0, 0)));
    assert_eq!(q.pop(), None);
}

#[test]
fn full_queue_drops_ordinary_messages_only() {
    let mut q = MessageQueue::new();
    for i in 0..256 {
        assert!(q.push(Message::new(1, WM_USER, i, 0)));
    }
    assert!(!q.push(Message::new(1, WM_USER, 256, 0)));
    assert_eq!(q.len(), 256);
    assert!(q.push(Message::new(1, WM_PAINT, 0, 0)));
    assert!(q.push(Message::new(1, WM_TIMER, 0, 0)));
    assert_eq!(q.pop().map(|m| m.wparam), Some(0));
    assert!(q.push(Message::new(1, WM_USER, 256, 0)));
    q.clear();
    assert!(q.is_empty());
}

#[test]
fn windows_have_their_own_queues() {
    let (mut q, _) = started();
    assert!(!post_message(&mut q, 5, WM_USER, 0, 0));
    create_queue(&mut q, 9);
    create_queue(&mut q, 5);
    create_queue(&mut q, 7);
    assert_eq!(all_handles(&q), vec![5, 7, 9]);
    assert!(post_message(&mut q, 5, WM_USER, 1, 2));
    assert!(post_message(&mut q, 5, WM_PAINT, 0, 0));
    assert!(has_messages(&q, 5) && !has_messages(&q, 7) && !has_messages(&q, 8));
    assert_eq!(peek_message(&q, 5), Some(Message::new(5, WM_USER, 1, 2)));
    assert_eq!(peek_message(&q, 7), None);
    assert_eq!(total_queued_messages(&q), 1);
    broadcast_message(&mut q, WM_COMMAND, 3, 4);
    assert_eq!(total_queued_messages(&q), 4);
    assert_eq!(get_message(&mut q, 7), Some(Message::new(7, WM_COMMAND, 3, 4)));
    assert_eq!(get_message(&mut q, 7), None);
    assert_eq!(get_message(&mut q, 5), Some(Message::new(5, WM_USER, 1, 2)));
    assert_eq!(get_message(&mut q, 5), Some(Message::new(5, WM_COMMAND, 3, 4)));
    assert_eq!(get_message(&mut q, 5), Some(Message::new(5, WM_PAINT, 0, 0)));
    destroy_queue(&mut q, 9);
    assert_eq!(all_handles(&q), vec![5, 7]);
    assert!(!post_message(&mut q, 9, WM_USER, 0, 0));
    assert_eq!(get_message(&mut q, 9), None);
    // A queue made anew is empty.
    assert!(post_message(&mut q, 5, WM_USER, 0, 0));
    create_queue(&mut q, 5);
    assert!(!has_messages(&q, 5));
}

#[test]
fn nothing_happens_before_the_start() {
    let mut q = Queues::new();
    create_queue(&mut q, 5);
    assert!(!post_message(&mut q, 5, WM_USER, 0, 0));
    broadcast_message(&mut q, WM_USER, 0, 0);
    post_system_message(&mut q, Message::new(0, WM_USER, 0, 0));
    assert_eq!(get_system_message(&mut q), None);
    assert_eq!(get_message(&mut q, 5), None);
    assert_eq!(total_queued_messages(&q), 0);
    assert_eq!(all_handles(&q), Vec::<u64>::new());
    let mut p = Procs::new();
    set_window_proc(&mut p, 5, 1);
    assert_eq!(get_window_proc(&p, 5), None);
}

#[test]
fn posting_fills_in_time_and_cursor() {
    let (mut q, _) = started();
    create_queue(&mut q, 5);
    q.stamp = Some(Stamp { time: 1000, x: 30, y: -4 });
    assert!(post_message(&mut q, 5, WM_USER, 1, 2));
    let m = get_message(&mut q, 5).unwrap();
    assert_eq!((m.time, m.pt_x, m.pt_y, m.wparam), (1000, 30, -4, 1));
    post_system_message(&mut q, Message::new(0, WM_USER, 3, 0));
    assert_eq!(get_system_message(&mut q).map(|m| m.time), Some(1000));
}

#[test]
fn system_queue_carries_the_exit_code() {
    let (mut q, _) = started();
    post_quit_message(&mut q, -2);
    post_quit_message(&mut q, 3);
    assert_eq!(
        get_system_message(&mut q),
        Some(Message::new(0, WM_QUIT, 0xFFFF_FFFF_FFFF_FFFE, 0))
    );
    assert_eq!(get_system_message(&mut q), Some(Message::new(0, WM_QUIT, 3, 0)));
    assert_eq!(get_system_message(&mut q), None);
}

#[test]
fn messages_go_to_the_procedure_of_their_window_or_the_default() {
    let (mut q, mut p) = started();
    create_queue(&mut q, 5);
    set_window_proc(&mut p, 6, 77);
    assert_eq!(get_window_proc(&p, 6), Some(77));
    assert_eq!(get_window_proc(&p, 5), None);
    let m = Message::new(6, WM_USER, 1, 2);
    assert_eq!(dispatch_message(&mut q, &p, &m), Dispatched::Call(77, m));
    assert_eq!(send_message(&mut q, &p, 6, WM_USER, 1, 2), Dispatched::Call(77, m));
    assert_eq!(send_message(&mut q, &p, 5, WM_ERASEBKGND, 0, 0), Dispatched::Handled(1));
    assert_eq!(send_message(&mut q, &p, 5, WM_PAINT, 0, 0), Dispatched::Handled(0));
    assert_eq!(def_window_proc(&mut q, 5, WM_DESTROY, 0, 0), 0);
    assert!(!has_messages(&q, 5));
    assert_eq!(def_window_proc(&mut q, 5, WM_CLOSE, 0, 0), 0);
    assert_eq!(get_message(&mut q, 5), Some(Message::new(5, WM_DESTROY, 0, 0)));
}

#[test]
fn round_drains_windows_in_order_then_the_system() {
    let (mut q, mut p) = started();
    create_queue(&mut q, 9);
    create_queue(&mut q, 5);
    set_window_proc(&mut p, 9, 77);
    assert!(post_message(&mut q, 9, WM_USER, 1, 0));
    assert!(post_message(&mut q, 5, WM_CLOSE, 0, 0));
    assert!(post_message(&mut q, 9, WM_TIMER, 0, 0));
    post_quit_message(&mut q, 0);
    let mut round = process_messages(&q);
    // Window 5 asks to close, and is told to destroy itself in the same round.
    assert_eq!(next_dispatch(&mut round, &mut q, &p), Some(Dispatched::Handled(0)));
    assert_eq!(next_dispatch(&mut round, &mut q, &p), Some(Dispatched::Handled(0)));
    assert_eq!(
        next_dispatch(&mut round, &mut q, &p),
        Some(Dispatched::Call(77, Message::new(9, WM_USER, 1, 0)))
    );
    // A message that a procedure posts is still handled.
    assert!(post_message(&mut q, 9, WM_USER, 2, 0));
    assert_eq!(
        next_dispatch(&mut round, &mut q, &p),
        Some(Dispatched::Call(77, Message::new(9, WM_USER, 2, 0)))
    );
    // The timer goes to the window that it was set for; then comes the system.
    assert_eq!(
        next_dispatch(&mut round, &mut q, &p),
        Some(Dispatched::Call(77, Message::new(9, WM_TIMER, 0, 0)))
    );
    assert_eq!(next_dispatch(&mut round, &mut q, &p), Some(Dispatched::Handled(0)));
    assert_eq!(next_dispatch(&mut round, &mut q, &p), None);
    assert_eq!(round.count, 6);
}

#[test]
fn repaint_calls_the_procedure_of_its_window() {
    let (mut q, mut p) = started();
    create_queue(&mut q, 5);
    create_queue(&mut q, 9);
    set_window_proc(&mut p, 5, 50);
    set_window_proc(&mut p, 9, 90);
    assert!(post_message(&mut q, 9, WM_PAINT, 0, 0));
    let mut round = process_messages(&q);
    assert_eq!(
        next_dispatch(&mut round, &mut q, &p),
        Some(Dispatched::Call(90, Message::new(9, WM_PAINT, 0, 0)))
    );
    assert_eq!(next_dispatch(&mut round, &mut q, &p), None);
}

#[test]
fn scancodes_name_keys() {
    let table: [(u8, u64); 24] = [
        (0x01, VK_ESCAPE),
        (0x0E, VK_BACK),
        (0x0F, VK_TAB),
        (0x1C, VK_RETURN),
        (0x2A, VK_SHIFT),
        (0x36, VK_SHIFT),
        (0x1D, VK_CONTROL),
        (0x38, VK_ALT),
        (0x39, VK_SPACE),
        (0x48, VK_UP),
        (0x4B, VK_LEFT),
        (0x50, VK_DOWN),
        (0x47, VK_HOME),
        (0x53, VK_DELETE),
        (0x3B, VK_F1),
        (0x44, VK_F10),
        (0x57, VK_F11),
        (0x58, VK_F12),
        (0x02, 0x31),
        (0x0A, 0x39),
        (0x0B, 0x30),
        (0x10, 0x51),
        (0x26, 0x4C),
        (0x32, 0x4D),
    ];
    for (code, vk) in table {
        assert_eq!(scancode_to_vk(code), vk);
        assert_eq!(scancode_to_vk(code | 0x80), vk);
    }
    let oem: [(u8, u64); 11] = [
        (0x27, VK_OEM_1),
        (0x0D, VK_OEM_PLUS),
        (0x33, VK_OEM_COMMA),
        (0x0C, VK_OEM_MINUS),
        (0x34, VK_OEM_PERIOD),
        (0x35, VK_OEM_2),
        (0x29, VK_OEM_3),
        (0x1A, VK_OEM_4),
        (0x2B, VK_OEM_5),
        (0x1B, VK_OEM_6),
        (0x28, VK_OEM_7),
    ];
    for (code, vk) in oem {
        assert_eq!(scancode_to_vk(code), vk);
    }
    assert_eq!(scancode_to_vk(0x00), 0);
    assert_eq!(scancode_to_vk(0x45), 0);
    assert_eq!(translate_scancode(0x7F, true), None);
    assert_eq!(translate_scancode(0x1E, true), Some(Message::new(0, WM_KEYDOWN, 0x41, 0x1E)));
    assert_eq!(translate_scancode(0x9E, false), Some(Message::new(0, WM_KEYUP, 0x41, 0x9E)));
}

#[test]
fn keyboard_types_what_is_printed_on_it() {
    let typed = |codes: &[u8], shift: bool| -> String {
        codes.iter().map(|c| vk_to_char(scancode_to_vk(*c), shift).unwrap()).collect()
    };
    let digits: Vec<u8> = (0x02..=0x0B).collect();
    assert_eq!(typed(&digits, false), "1234567890");
    assert_eq!(typed(&digits, true), "!@#$%^&*()");
    let upper: Vec<u8> = (0x10..=0x19).collect();
    assert_eq!(typed(&upper, false), "qwertyuiop");
    assert_eq!(typed(&upper, true), "QWERTYUIOP");
    let home: Vec<u8> = (0x1E..=0x26).collect();
    assert_eq!(typed(&home, false), "asdfghjkl");
    let lower: Vec<u8> = (0x2C..=0x32).collect();
    assert_eq!(typed(&lower, false), "zxcvbnm");
    let signs = [0x0C, 0x0D, 0x1A, 0x1B, 0x27, 0x28, 0x29, 0x2B, 0x33, 0x34, 0x35, 0x39];
    assert_eq!(typed(&signs, false), "-=[];'`\\,./ ");
    assert_eq!(typed(&signs, true), "_+{}:\"~|<>? ");
    assert_eq!(vk_to_char(VK_RETURN, false), Some('\n'));
    assert_eq!(vk_to_char(VK_TAB, true), Some('\t'));
    assert_eq!(vk_to_char(VK_BACK, false), Some('\x08'));
    assert_eq!(vk_to_char(VK_F1, false), None);
    assert_eq!(vk_to_char(0, false), None);
}

#[test]
fn mouse_reports_moves_and_changed_buttons() {
    let l = make_lparam(10, -20);
    let kinds = |v: Vec<Message>| -> Vec<u32> { v.iter().map(|m| m.msg).collect() };
    let v = translate_mouse(10, -20, 0, 0);
    assert_eq!(v, vec![Message::new(0, WM_MOUSEMOVE, 0, l)]);
    let v = translate_mouse(10, -20, 0b101, 0b011);
    let w = MK_LBUTTON | MK_MBUTTON;
    assert_eq!(
        v,
        vec![
            Message::new(0, WM_MOUSEMOVE, w, l),
            Message::new(0, WM_RBUTTONUP, w, l),
            Message::new(0, WM_MBUTTONDOWN, w, l),
        ]
    );
    assert_eq!(
        kinds(translate_mouse(0, 0, 0b111, 0)),
        vec![WM_MOUSEMOVE, WM_LBUTTONDOWN, WM_RBUTTONDOWN, WM_MBUTTONDOWN]
    );
    assert_eq!(
        kinds(translate_mouse(0, 0, 0, 0b111)),
        vec![WM_MOUSEMOVE, WM_LBUTTONUP, WM_RBUTTONUP, WM_MBUTTONUP]
    );
    assert_eq!(translate_mouse(0, 0, 0b010, 0b010)[0].wparam, MK_RBUTTON);
}
