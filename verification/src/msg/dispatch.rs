//! Dispatch of messages to window procedures.
//!
//! A window procedure is known here by a number; whoever owns the procedures calls them.
use std::collections::BTreeMap;
use vstd::prelude::*;
use crate::msg::message::{fresh, Message, WM_CLOSE, WM_DESTROY, WM_ERASEBKGND, WM_QUIT};
use crate::msg::queue::{
    all_handles, get_message, get_system_message, lists, post_message, post_system_message, Queues,
    QueuesView,
};

verus! {

/// Names a window procedure.
pub type WndProc = u64;

/// The procedures of the windows.
pub struct Procs {
    /// Procedures by window; none before the start.
    pub by_window: Option<BTreeMap<u64, WndProc>>,
}

impl View for Procs {
    type V = Option<Map<u64, WndProc>>;

    open spec fn view(&self) -> Option<Map<u64, WndProc>> {
        match self.by_window {
            Some(m) => Some(m@),
            None => None,
        }
    }
}

/// What became of a message that was dispatched.
#[derive(Clone, Copy, PartialEq, Eq, Structural, Debug)]
pub enum Dispatched {
    /// The procedure is to be called with the four parameters of the message.
    Call(WndProc, Message),
    /// The default procedure has handled it, with this result.
    Handled(u64),
}

/// The procedure of the window, where it has one.
pub open spec fn proc_of(procs: Option<Map<u64, WndProc>>, hwnd: u64) -> Option<WndProc> {
    match procs {
        Some(m) => if m.contains_key(hwnd) {
            Some(m[hwnd])
        } else {
            None
        },
        None => None,
    }
}

/// What the default procedure returns.
pub open spec fn default_result(msg: u32) -> u64 {
    if msg == WM_ERASEBKGND {
        1
    } else {
        0
    }
}

impl QueuesView {
    /// After the default procedure has handled a message.
    pub open spec fn after_default(self, hwnd: u64, msg: u32) -> QueuesView {
        if msg == WM_CLOSE {
            self.posted(hwnd, WM_DESTROY, 0, 0)
        } else {
            self
        }
    }

    /// After a message was dispatched; a procedure of the window has not run yet.
    pub open spec fn after_dispatch(self, procs: Option<Map<u64, WndProc>>, m: Message) -> QueuesView {
        match proc_of(procs, m.hwnd) {
            Some(_) => self,
            None => self.after_default(m.hwnd, m.msg),
        }
    }
}

/// Who handles a message.
pub open spec fn dispatched(procs: Option<Map<u64, WndProc>>, m: Message) -> Dispatched {
    match proc_of(procs, m.hwnd) {
        Some(p) => Dispatched::Call(p, m),
        None => Dispatched::Handled(default_result(m.msg)),
    }
}

impl Procs {
    /// The procedures before the start.
    pub fn new() -> (r: Procs)
        ensures
            r@ is None,
    {
        Procs { by_window: None }
    }
}

/// Starts with no procedure.
pub fn init(procs: &mut Procs)
    ensures
        final(procs)@ == Some(Map::<u64, WndProc>::empty()),
{
    procs.by_window = Some(BTreeMap::new());
}

/// Sets the procedure of a window, in place of the one it has.
pub fn set_window_proc(procs: &mut Procs, hwnd: u64, proc_fn: WndProc)
    ensures
        final(procs)@ == (match old(procs)@ {
            Some(m) => Some(m.insert(hwnd, proc_fn)),
            None => None,
        }),
        old(procs)@ is Some ==> proc_of(final(procs)@, hwnd) == Some(proc_fn),
        forall|other: u64|
            other != hwnd ==> #[trigger] proc_of(final(procs)@, other) == proc_of(
                old(procs)@,
                other,
            ),
{
    proof {
        broadcast use vstd::std_specs::btree::group_btree_axioms;
    }
    if let Some(map) = &mut procs.by_window {
        map.insert(hwnd, proc_fn);
    }
}

/// The procedure of a window, where it has one.
pub fn get_window_proc(procs: &Procs, hwnd: u64) -> (r: Option<WndProc>)
    ensures
        r == proc_of(procs@, hwnd),
{
    proof {
        broadcast use vstd::std_specs::btree::group_btree_axioms;
    }
    if let Some(map) = &procs.by_window {
        match map.get(&hwnd) {
            Some(p) => Some(*p),
            None => None,
        }
    } else {
        None
    }
}

/// What happens to a message that a window does not handle itself: a request to close
/// posts a message to destroy, the background counts as erased, anything else is
/// ignored.
pub fn def_window_proc(q: &mut Queues, hwnd: u64, msg: u32, _wparam: u64, _lparam: u64) -> (r: u64)
    ensures
        r == default_result(msg),
        final(q)@ == old(q)@.after_default(hwnd, msg),
{
    match msg {
        WM_CLOSE => {
            let _ = post_message(q, hwnd, WM_DESTROY, 0, 0);
            0
        },
        WM_ERASEBKGND => 1,
        _ => 0,
    }
}

/// Dispatches a message to the procedure of its window, or to the default one where the
/// window has none.
pub fn dispatch_message(q: &mut Queues, procs: &Procs, msg: &Message) -> (r: Dispatched)
    ensures
        r == dispatched(procs@, *msg),
        final(q)@ == old(q)@.after_dispatch(procs@, *msg),
{
    match get_window_proc(procs, msg.hwnd) {
        Some(p) => Dispatched::Call(p, *msg),
        None => Dispatched::Handled(
            def_window_proc(q, msg.hwnd, msg.msg, msg.wparam, msg.lparam),
        ),
    }
}

/// Sends a message past the queues, straight to the procedure of the window.
pub fn send_message(
    q: &mut Queues,
    procs: &Procs,
    hwnd: u64,
    msg: u32,
    wparam: u64,
    lparam: u64,
) -> (r: Dispatched)
    ensures
        r == dispatched(procs@, fresh(hwnd, msg, wparam, lparam)),
        final(q)@ == old(q)@.after_dispatch(procs@, fresh(hwnd, msg, wparam, lparam)),
{
    dispatch_message(q, procs, &Message::new(hwnd, msg, wparam, lparam))
}

/// A round that drains the queues.
pub struct Round {
    /// The windows that had a queue when the round began, in ascending order.
    pub handles: Vec<u64>,
    /// The window whose queue is being drained; past the last one, that of the system.
    pub at: usize,
    /// Messages dispatched so far.
    pub count: u32,
}

/// A round, as plain values.
#[verifier::ext_equal]
pub struct RoundView {
    pub handles: Seq<u64>,
    pub at: int,
    pub count: int,
}

impl View for Round {
    type V = RoundView;

    open spec fn view(&self) -> RoundView {
        RoundView { handles: self.handles@, at: self.at as int, count: self.count as int }
    }
}

/// The first window from the `i`-th on that has something left; the number of windows
/// where none has.
pub open spec fn first_busy(handles: Seq<u64>, q: QueuesView, i: int) -> int
    decreases handles.len() - i,
{
    if i < 0 || i >= handles.len() {
        handles.len() as int
    } else if q.next_for(handles[i]) is Some {
        i
    } else {
        first_busy(handles, q, i + 1)
    }
}

impl RoundView {
    /// Where the next message is taken from.
    pub open spec fn source(self, q: QueuesView) -> int {
        first_busy(self.handles, q, self.at)
    }

    /// The next message to dispatch.
    pub open spec fn next(self, q: QueuesView) -> Option<Message> {
        if self.source(q) < self.handles.len() {
            q.next_for(self.handles[self.source(q)])
        } else {
            q.next_system()
        }
    }

    /// The queues without that message.
    pub open spec fn taken(self, q: QueuesView) -> QueuesView {
        if self.source(q) < self.handles.len() {
            q.taken(self.handles[self.source(q)])
        } else {
            q.system_taken()
        }
    }

    /// The round after that message.
    pub open spec fn stepped(self, q: QueuesView) -> RoundView {
        RoundView {
            at: self.source(q),
            count: self.count + (if self.next(q) is Some {
                1int
            } else {
                0
            }),
            ..self
        }
    }
}

/// Begins to drain the queues of all windows, then that of the system.
pub fn process_messages(q: &Queues) -> (r: Round)
    ensures
        lists(r@.handles, q@.handles()),
        r@.at == 0,
        r@.count == 0,
{
    Round { handles: all_handles(q), at: 0, count: 0 }
}

/// Dispatches the next message of a round.
///
/// Where the window has a procedure, the caller runs it before the next step.  `None`
/// ends the round, and its count is the number of messages dispatched.
pub fn next_dispatch(round: &mut Round, q: &mut Queues, procs: &Procs) -> (r: Option<Dispatched>)
    requires
        old(round)@.at <= old(round)@.handles.len(),
        old(round)@.count < u32::MAX,
    ensures
        final(round)@ == old(round)@.stepped(old(q)@),
        r == (match old(round)@.next(old(q)@) {
            Some(m) => Some(dispatched(procs@, m)),
            None => None,
        }),
        final(q)@ == (match old(round)@.next(old(q)@) {
            Some(m) => old(round)@.taken(old(q)@).after_dispatch(procs@, m),
            None => old(round)@.taken(old(q)@),
        }),
        final(round)@.at <= final(round)@.handles.len(),
{
    while round.at < round.handles.len()
        invariant
            round@.handles == old(round)@.handles,
            round@.count == old(round)@.count < u32::MAX,
            round@.at <= round@.handles.len(),
            round@.source(q@) == old(round)@.source(old(q)@),
            q@ == old(q)@,
        ensures
            round.at == round.handles.len(),
        decreases round.handles.len() - round.at,
    {
        let hwnd: u64 = round.handles[round.at];
        if let Some(m) = get_message(q, hwnd) {
            round.count = round.count + 1;
            return Some(dispatch_message(q, procs, &m));
        }
        proof {
            crate::msg::queue::lemma_nothing_taken(old(q)@, hwnd);
        }
        round.at = round.at + 1;
    }
    if let Some(m) = get_system_message(q) {
        round.count = round.count + 1;
        return Some(dispatch_message(q, procs, &m));
    }
    None
}

/// Asks the system to end, with this exit code.
pub fn post_quit_message(q: &mut Queues, exit_code: i32)
    ensures
        final(q)@ == old(q)@.system_posted(fresh(0, WM_QUIT, exit_word(exit_code), 0)),
{
    proof {
        assert(exit_code >= 0 ==> exit_code as u64 == exit_code) by (bit_vector);
        assert(exit_code < 0 ==> exit_code as u64 == exit_code + 0x1_0000_0000_0000_0000)
            by (bit_vector);
    }
    #[verifier::truncate]
    let word: u64 = exit_code as u64;
    post_system_message(q, Message::new(0, WM_QUIT, word, 0));
}

/// An exit code as a parameter: its two's complement code in 64 bits.
pub open spec fn exit_word(code: i32) -> u64 {
    if code >= 0 {
        code as u64
    } else {
        (code + 0x1_0000_0000_0000_0000) as u64
    }
}

/// The procedure that was set last is the one that a message goes to; other windows keep
/// theirs.
pub proof fn law_set_procedure_is_called(procs: Map<u64, WndProc>, hwnd: u64, p: WndProc, m: Message)
    ensures
        m.hwnd == hwnd ==> dispatched(Some(procs.insert(hwnd, p)), m) == Dispatched::Call(p, m),
        m.hwnd != hwnd ==> dispatched(Some(procs.insert(hwnd, p)), m) == dispatched(Some(procs), m),
{
}

/// A request to close a window that handles nothing itself makes it get a message to
/// destroy, once what was posted before has been handed out.
pub proof fn law_close_leads_to_destroy(q: QueuesView, procs: Option<Map<u64, WndProc>>, m: Message)
    requires
        proc_of(procs, m.hwnd) is None,
        m.msg == WM_CLOSE,
        q.has(m.hwnd),
        q.of(m.hwnd).messages.len() < crate::msg::queue::MAX_QUEUE_SIZE,
    ensures
        dispatched(procs, m) == Dispatched::Handled(0),
        q.after_dispatch(procs, m).of(m.hwnd).messages == q.of(m.hwnd).messages.push(
            q.posting(m.hwnd, WM_DESTROY, 0, 0),
        ),
{
}

/// Where a round ends, nothing is left for the system, and nothing for the window it
/// stood at or any later one.
pub proof fn law_round_ends_when_drained(round: RoundView, q: QueuesView, i: int)
    requires
        0 <= round.at <= i < round.handles.len(),
        round.next(q) is None,
    ensures
        q.next_for(round.handles[i]) is None,
        q.next_system() is None,
        round.taken(q) == q,
{
    lemma_busy(round.handles, q, round.at);
    if let Some(s) = q.system {
        crate::msg::queue::law_pop_takes_one(s);
    }
}

/// All windows before the busy one have nothing left.
proof fn lemma_busy(handles: Seq<u64>, q: QueuesView, at: int)
    requires
        0 <= at <= handles.len(),
    ensures
        at <= first_busy(handles, q, at) <= handles.len(),
        forall|i: int|
            at <= i < first_busy(handles, q, at) ==> q.next_for(#[trigger] handles[i]) is None,
        first_busy(handles, q, at) < handles.len() ==> q.next_for(
            handles[first_busy(handles, q, at)],
        ) is Some,
    decreases handles.len() - at,
{
    if at < handles.len() && q.next_for(handles[at]) is None {
        lemma_busy(handles, q, at + 1);
    }
}

/// A round visits the windows in ascending order of their handles, and the system last.
pub proof fn law_round_goes_up(round: RoundView, q: QueuesView)
    requires
        0 <= round.at <= round.handles.len(),
    ensures
        round.at <= round.stepped(q).at <= round.handles.len(),
        round.stepped(q).handles == round.handles,
{
    lemma_busy(round.handles, q, round.at);
}

/// A repaint or a timer goes to the procedure of the window whose queue the round drains.
pub proof fn law_repaint_goes_to_its_window(
    round: RoundView,
    q: QueuesView,
    procs: Option<Map<u64, WndProc>>,
)
    requires
        0 <= round.at <= round.source(q) < round.handles.len(),
        q.of(round.handles[round.source(q)]).messages.len() == 0,
        proc_of(procs, round.handles[round.source(q)]) is Some,
    ensures
        ({
            let hwnd = round.handles[round.source(q)];
            &&& round.next(q) matches Some(m) && m.hwnd == hwnd
            &&& dispatched(procs, round.next(q)->0) == Dispatched::Call(
                proc_of(procs, hwnd)->0,
                round.next(q)->0,
            )
        }),
{
    lemma_busy(round.handles, q, round.at);
}

/// An exit code comes back from the parameter of the message that carries it.
pub proof fn law_exit_code_is_kept(a: i32, b: i32)
    requires
        exit_word(a) == exit_word(b),
    ensures
        a == b,
{
}

} // verus!
