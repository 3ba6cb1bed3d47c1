//! What posting, taking and dispatching promise, window by window.
use vstd::prelude::*;
use crate::msg::dispatch::{default_result, dispatched, exit_word, Dispatched, RoundView, WndProc};
use crate::msg::message::{coded, decoded, fresh, Message};
use crate::msg::queue::{empty_queue, lists, queued, QueueView, QueuesView};

verus! {

/// A posted message stands last in the queue of its window, whole, with the time and the place
/// of the cursor, where these are known.  Nothing else changes.
pub proof fn law_post_adds_the_message(
    q: QueuesView,
    hwnd: u64,
    msg: u32,
    wparam: u64,
    lparam: u64,
    other: u64,
)
    requires
        q.has(hwnd),
        msg != 0x000F,
        msg != 0x0113,
        q.of(hwnd).messages.len() < 256,
    ensures
        ({
            let after = q.posted(hwnd, msg, wparam, lparam);
            let (was, kept) = (q.of(hwnd), after.of(hwnd));
            let m = kept.messages.last();
            &&& kept.messages.len() == was.messages.len() + 1
            &&& kept.messages.drop_last() == was.messages
            &&& m.hwnd == hwnd && m.msg == msg && m.wparam == wparam && m.lparam == lparam
            &&& q.stamp matches Some(s) ==> m.time == s.time && m.pt_x == s.x && m.pt_y == s.y
            &&& q.stamp is None ==> m.time == 0 && m.pt_x == 0 && m.pt_y == 0
            &&& kept.pending_paint == was.pending_paint
            &&& kept.pending_timer == was.pending_timer
            &&& after.has(other) == q.has(other)
            &&& other != hwnd && q.has(other) ==> after.of(other) == q.of(other)
            &&& after.system == q.system
            &&& after.stamp == q.stamp
            &&& q.of(hwnd).accepts(q.posting(hwnd, msg, wparam, lparam))
        }),
{
    let after = q.posted(hwnd, msg, wparam, lparam);
    assert(after.of(hwnd).messages.drop_last() =~= q.of(hwnd).messages);
}

/// A repaint or a timer is only marked; a full queue takes these two and nothing else; a window
/// without a queue takes nothing.
pub proof fn law_post_marks_or_drops(q: QueuesView, hwnd: u64, msg: u32, wparam: u64, lparam: u64)
    ensures
        ({
            let after = q.posted(hwnd, msg, wparam, lparam);
            let (was, kept) = (q.of(hwnd), after.of(hwnd));
            &&& !q.has(hwnd) ==> after == q
            &&& q.has(hwnd) && msg == 0x000F ==> kept.pending_paint && kept.pending_timer
                == was.pending_timer && kept.messages == was.messages
            &&& q.has(hwnd) && msg == 0x0113 ==> kept.pending_timer && kept.pending_paint
                == was.pending_paint && kept.messages == was.messages
            &&& q.has(hwnd) && msg != 0x000F && msg != 0x0113 && was.messages.len() >= 256 ==> kept
                == was && !was.accepts(q.posting(hwnd, msg, wparam, lparam))
        }),
{
}

/// What comes out of a queue: the oldest message, unchanged; once there is none a repaint, and
/// then a timer, both for the window.
pub proof fn law_take_gives_the_oldest(q: QueuesView, hwnd: u64, other: u64)
    requires
        q.has(hwnd),
    ensures
        ({
            let after = q.taken(hwnd);
            let (was, kept) = (q.of(hwnd), after.of(hwnd));
            let m = q.next_for(hwnd);
            &&& was.messages.len() > 0 ==> m == Some(was.messages[0]) && kept.messages
                == was.messages.subrange(1, was.messages.len() as int) && kept.pending_paint
                == was.pending_paint && kept.pending_timer == was.pending_timer
            &&& was.messages.len() == 0 && was.pending_paint ==> m == Some(
                fresh(hwnd, 0x000F, 0, 0),
            ) && !kept.pending_paint && kept.pending_timer == was.pending_timer && kept.messages.len()
                == 0
            &&& was.messages.len() == 0 && !was.pending_paint && was.pending_timer ==> m == Some(
                fresh(hwnd, 0x0113, 0, 0),
            ) && !kept.pending_paint && !kept.pending_timer && kept.messages.len() == 0
            &&& was.messages.len() == 0 && !was.pending_paint && !was.pending_timer ==> m is None
                && kept == was
            &&& after.has(other) == q.has(other)
            &&& other != hwnd && q.has(other) ==> after.of(other) == q.of(other)
            &&& after.system == q.system
        }),
{
    let was = q.of(hwnd);
    if was.messages.len() > 0 {
        assert(was.messages.drop_first() =~= was.messages.subrange(1, was.messages.len() as int));
    }
}

/// A new queue has nothing in it, whatever the window had; the other windows keep theirs.
pub proof fn law_new_queue_is_empty(q: QueuesView, hwnd: u64, other: u64)
    requires
        q.windows is Some,
    ensures
        ({
            let after = q.with(hwnd, empty_queue());
            &&& after.has(hwnd)
            &&& after.of(hwnd).messages.len() == 0
            &&& !after.of(hwnd).pending_paint
            &&& !after.of(hwnd).pending_timer
            &&& after.next_for(hwnd) is None
            &&& other != hwnd ==> after.has(other) == q.has(other)
            &&& other != hwnd && q.has(other) ==> after.of(other) == q.of(other)
        }),
{
}

/// A broadcast puts a message of its own last in the queue of every window that has room.
pub proof fn law_broadcast_names_each_window(
    q: QueuesView,
    hwnd: u64,
    msg: u32,
    wparam: u64,
    lparam: u64,
)
    requires
        q.has(hwnd),
        msg != 0x000F,
        msg != 0x0113,
        q.of(hwnd).messages.len() < 256,
    ensures
        ({
            let kept = q.broadcast_to_all(msg, wparam, lparam).of(hwnd);
            let m = kept.messages.last();
            &&& kept.messages.len() == q.of(hwnd).messages.len() + 1
            &&& kept.messages.drop_last() == q.of(hwnd).messages
            &&& m.hwnd == hwnd && m.msg == msg && m.wparam == wparam && m.lparam == lparam
            &&& q.stamp matches Some(s) ==> m.time == s.time && m.pt_x == s.x && m.pt_y == s.y
        }),
{
    let kept = q.broadcast_to_all(msg, wparam, lparam).of(hwnd);
    assert(kept.messages.drop_last() =~= q.of(hwnd).messages);
}

/// A message of the system goes to the system's queue, and to no window's.
pub proof fn law_system_messages_stay_apart(q: QueuesView, m: Message)
    requires
        q.system is Some,
        m.msg != 0x000F,
        m.msg != 0x0113,
        q.system->0.messages.len() < 256,
    ensures
        ({
            let after = q.system_posted(m);
            let n = after.system->0.messages.last();
            &&& after.windows == q.windows
            &&& after.system is Some
            &&& after.system->0.messages.drop_last() == q.system->0.messages
            &&& after.system->0.messages.len() == q.system->0.messages.len() + 1
            &&& n.hwnd == m.hwnd && n.msg == m.msg && n.wparam == m.wparam && n.lparam == m.lparam
            &&& q.stamp matches Some(s) ==> n.time == s.time && n.pt_x == s.x && n.pt_y == s.y
            &&& q.system->0.messages.len() == 0 ==> after.next_system() == Some(n)
            &&& after.system_taken().windows == q.windows
        }),
{
    assert(q.system_posted(m).system->0.messages.drop_last() =~= q.system->0.messages);
}

/// The number of queued messages follows every queue: where one queue changes, it changes by
/// as much.
pub proof fn law_total_follows_every_queue(
    s: Seq<u64>,
    w: Map<u64, QueueView>,
    hwnd: u64,
    q: QueueView,
)
    requires
        lists(s, w.dom()),
        w.contains_key(hwnd),
    ensures
        queued(s, w.insert(hwnd, q)) == queued(s, w) + q.messages.len() - w[hwnd].messages.len(),
        queued(s, w) >= w[hwnd].messages.len(),
{
    assert(s.contains(hwnd));
    let k = choose|k: int| 0 <= k < s.len() && s[k] == hwnd;
    lemma_total(s, w, hwnd, q, k);
}

proof fn lemma_total(s: Seq<u64>, w: Map<u64, QueueView>, hwnd: u64, q: QueueView, k: int)
    requires
        forall|i: int, j: int| 0 <= i < j < s.len() ==> s[i] < s[j],
        0 <= k < s.len(),
        s[k] == hwnd,
    ensures
        queued(s, w.insert(hwnd, q)) == queued(s, w) + q.messages.len() - w[hwnd].messages.len(),
        queued(s, w) >= w[hwnd].messages.len(),
    decreases s.len(),
{
    if k == s.len() - 1 {
        lemma_total_apart(s.drop_last(), w, hwnd, q);
    } else {
        assert(s.last() != hwnd);
        lemma_total(s.drop_last(), w, hwnd, q, k);
    }
}

proof fn lemma_total_apart(s: Seq<u64>, w: Map<u64, QueueView>, hwnd: u64, q: QueueView)
    requires
        forall|i: int| 0 <= i < s.len() ==> s[i] != hwnd,
    ensures
        queued(s, w.insert(hwnd, q)) == queued(s, w),
    decreases s.len(),
{
    if s.len() > 0 {
        lemma_total_apart(s.drop_last(), w, hwnd, q);
    }
}

/// Without a window there is no message, and a window with an empty queue adds none.
pub proof fn law_empty_queues_count_nothing(s: Seq<u64>, w: Map<u64, QueueView>)
    requires
        forall|i: int| 0 <= i < s.len() ==> w[#[trigger] s[i]].messages.len() == 0,
    ensures
        queued(s, w) == 0,
    decreases s.len(),
{
    if s.len() > 0 {
        law_empty_queues_count_nothing(s.drop_last(), w);
    }
}

/// A window without a procedure answers 1 to the message that its background is to be erased,
/// and 0 to every other; only the message to close leads to one more.
pub proof fn law_default_answers(q: QueuesView, hwnd: u64, msg: u32, other: u64)
    ensures
        default_result(msg) == if msg == 0x0014 {
            1u64
        } else {
            0
        },
        msg != 0x0010 ==> q.after_default(hwnd, msg) == q,
        msg == 0x0010 && q.has(hwnd) && q.of(hwnd).messages.len() < 256 ==> {
            let m = q.after_default(hwnd, msg).of(hwnd).messages.last();
            &&& q.after_default(hwnd, msg).of(hwnd).messages.len() == q.of(hwnd).messages.len() + 1
            &&& m.msg == 0x0002 && m.hwnd == hwnd && m.wparam == 0 && m.lparam == 0
        },
        other != hwnd && q.has(other) ==> q.after_default(hwnd, msg).of(other) == q.of(other),
{
}

/// A message goes to the procedure of its window, which alone decides what follows; without
/// one the default answers.
pub proof fn law_dispatch_goes_to_the_window(
    q: QueuesView,
    procs: Option<Map<u64, WndProc>>,
    m: Message,
)
    ensures
        procs matches Some(p) && p.contains_key(m.hwnd) ==> dispatched(procs, m)
            == Dispatched::Call(procs->0[m.hwnd], m) && q.after_dispatch(procs, m) == q,
        procs is None || !procs->0.contains_key(m.hwnd) ==> dispatched(procs, m)
            == Dispatched::Handled(
            if m.msg == 0x0014 {
                1
            } else {
                0
            },
        ),
{
}

/// A round takes from the first window, from where it stands on, that has something; no window
/// in between has.
pub proof fn law_round_takes_from_the_first_busy_window(round: RoundView, q: QueuesView, i: int)
    requires
        0 <= round.at <= i < round.handles.len(),
        q.next_for(round.handles[i]) is Some,
        forall|j: int| round.at <= j < i ==> q.next_for(#[trigger] round.handles[j]) is None,
    ensures
        round.next(q) == q.next_for(round.handles[i]),
        round.taken(q) == q.taken(round.handles[i]),
        round.stepped(q).at == i,
        round.stepped(q).count == round.count + 1,
    decreases i - round.at,
{
    if round.at < i {
        let ahead = RoundView { at: round.at + 1, ..round };
        assert(q.next_for(round.handles[round.at]) is None);
        law_round_takes_from_the_first_busy_window(ahead, q, i);
    }
}

/// Where no window has anything the round takes from the system; where this has nothing either,
/// it counts nothing.
pub proof fn law_round_ends_with_the_system(round: RoundView, q: QueuesView)
    requires
        0 <= round.at <= round.handles.len(),
        forall|j: int|
            round.at <= j < round.handles.len() ==> q.next_for(#[trigger] round.handles[j]) is None,
    ensures
        round.next(q) == q.next_system(),
        round.taken(q) == q.system_taken(),
        round.stepped(q).at == round.handles.len(),
        round.stepped(q).count == round.count + if q.next_system() is Some {
            1int
        } else {
            0
        },
    decreases round.handles.len() - round.at,
{
    if round.at < round.handles.len() {
        let ahead = RoundView { at: round.at + 1, ..round };
        assert(q.next_for(round.handles[round.at]) is None);
        law_round_ends_with_the_system(ahead, q);
    }
}

/// An exit code travels as the 64-bit word that is the same number modulo 2^64.
pub proof fn law_exit_word_is_the_code(code: i32)
    ensures
        exit_word(code) == code as int % 0x1_0000_0000_0000_0000,
{
}

/// A coordinate is packed as the 32-bit word that is the same number modulo 2^32, and comes back
/// as the number of 32 bits with a sign that has this word.
pub proof fn law_coordinate_codes(v: i32, w: int)
    requires
        0 <= w < 0x1_0000_0000,
    ensures
        coded(v) == v as int % 0x1_0000_0000,
        -0x8000_0000 <= decoded(w) < 0x8000_0000,
        decoded(w) % 0x1_0000_0000 == w,
{
}

} // verus!
