//! Window messages: kinds, queues, dispatch, and translation of input events.
use vstd::prelude::*;

pub mod dispatch;
pub mod input;
pub mod input_laws;
pub mod message;
pub mod queue;
pub mod queue_laws;

pub use dispatch::{
    def_window_proc, dispatch_message, next_dispatch, post_quit_message, process_messages,
    send_message, set_window_proc, WndProc,
};
pub use input::{translate_mouse, translate_scancode, vk_to_char};
pub use message::{get_x_lparam, get_y_lparam, make_lparam, Message};
pub use queue::{
    broadcast_message, create_queue, destroy_queue, get_message, has_messages, peek_message,
    post_message, total_queued_messages,
};

verus! {

/// Starts the queues and the dispatch.
pub fn init(q: &mut queue::Queues, procs: &mut dispatch::Procs)
    ensures
        final(q)@ == (queue::QueuesView {
            windows: Some(Map::empty()),
            system: Some(queue::empty_queue()),
            stamp: old(q)@.stamp,
        }),
        final(procs)@ == Some(Map::<u64, WndProc>::empty()),
{
    queue::init(q);
    dispatch::init(procs);
}

} // verus!
