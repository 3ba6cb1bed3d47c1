//! Message queues of windows, and the queue of the system.
use std::collections::{BTreeMap, VecDeque};
use vstd::prelude::*;
use vstd::std_specs::cmp::OrdSpec;
use vstd::std_specs::iter::IteratorSpec;
use crate::msg::message::{fresh, Message, WM_PAINT, WM_TIMER};

verus! {

/// Messages that a queue holds before it drops new ones.
pub const MAX_QUEUE_SIZE: usize = 256;

/// A bounded queue of messages.
pub struct MessageQueue {
    /// Posted messages, oldest first.
    pub messages: VecDeque<Message>,
    /// A repaint is wanted.  It is handed out once nothing else is left.
    pub pending_paint: bool,
    /// A timer has run out.  It is handed out once nothing else is left.
    pub pending_timer: bool,
}

/// What a queue holds.
#[verifier::ext_equal]
pub struct QueueView {
    pub messages: Seq<Message>,
    pub pending_paint: bool,
    pub pending_timer: bool,
}

impl View for MessageQueue {
    type V = QueueView;

    open spec fn view(&self) -> QueueView {
        QueueView {
            messages: self.messages@,
            pending_paint: self.pending_paint,
            pending_timer: self.pending_timer,
        }
    }
}

/// A queue with nothing in it.
pub open spec fn empty_queue() -> QueueView {
    QueueView { messages: Seq::empty(), pending_paint: false, pending_timer: false }
}

impl QueueView {
    /// The queue holds no more than it may.
    pub open spec fn wf(self) -> bool {
        self.messages.len() <= MAX_QUEUE_SIZE
    }

    /// The queue takes the message.
    pub open spec fn accepts(self, m: Message) -> bool {
        m.msg == WM_PAINT || m.msg == WM_TIMER || self.messages.len() < MAX_QUEUE_SIZE
    }

    /// The queue after the message was pushed.
    pub open spec fn pushed(self, m: Message) -> QueueView {
        if m.msg == WM_PAINT {
            QueueView { pending_paint: true, ..self }
        } else if m.msg == WM_TIMER {
            QueueView { pending_timer: true, ..self }
        } else if self.messages.len() < MAX_QUEUE_SIZE {
            QueueView { messages: self.messages.push(m), ..self }
        } else {
            self
        }
    }

    /// The message that comes next.
    pub open spec fn next(self) -> Option<Message> {
        if self.messages.len() > 0 {
            Some(self.messages[0])
        } else if self.pending_paint {
            Some(fresh(0, WM_PAINT, 0, 0))
        } else if self.pending_timer {
            Some(fresh(0, WM_TIMER, 0, 0))
        } else {
            None
        }
    }

    /// The queue after the next message was taken.
    pub open spec fn popped(self) -> QueueView {
        if self.messages.len() > 0 {
            QueueView { messages: self.messages.drop_first(), ..self }
        } else if self.pending_paint {
            QueueView { pending_paint: false, ..self }
        } else {
            QueueView { pending_timer: false, ..self }
        }
    }

    /// Nothing is left to hand out.
    pub open spec fn drained(self) -> bool {
        self == empty_queue()
    }

    /// How many messages the queue will hand out if nothing is added.
    pub open spec fn pending(self) -> nat {
        self.messages.len() + (if self.pending_paint {
            1nat
        } else {
            0nat
        }) + (if self.pending_timer {
            1nat
        } else {
            0nat
        })
    }
}

impl MessageQueue {
    /// A queue with nothing in it.
    pub fn new() -> (r: MessageQueue)
        ensures
            r@ == empty_queue(),
    {
        MessageQueue { messages: VecDeque::new(), pending_paint: false, pending_timer: false }
    }

    /// Adds a message; `false` where the queue is full and the message was dropped.
    ///
    /// Repaints and timers do not take up room: any number of them counts as one.
    pub fn push(&mut self, msg: Message) -> (r: bool)
        ensures
            r == old(self)@.accepts(msg),
            final(self)@ == old(self)@.pushed(msg),
    {
        match msg.msg {
            WM_PAINT => {
                self.pending_paint = true;
                true
            },
            WM_TIMER => {
                self.pending_timer = true;
                true
            },
            _ => {
                if self.messages.len() >= MAX_QUEUE_SIZE {
                    false
                } else {
                    self.messages.push_back(msg);
                    true
                }
            },
        }
    }

    /// Takes the next message: the oldest one posted, or, when none is left, a wanted
    /// repaint, then a timer.
    pub fn pop(&mut self) -> (r: Option<Message>)
        ensures
            r == old(self)@.next(),
            final(self)@ == old(self)@.popped(),
    {
        if let Some(msg) = self.messages.pop_front() {
            proof {
                assert(self.messages@ =~= old(self).messages@.drop_first());
            }
            return Some(msg);
        }
        if self.pending_paint {
            self.pending_paint = false;
            return Some(Message::new(0, WM_PAINT, 0, 0));
        }
        if self.pending_timer {
            self.pending_timer = false;
            return Some(Message::new(0, WM_TIMER, 0, 0));
        }
        None
    }

    /// The oldest message posted, which stays in the queue.
    pub fn peek(&self) -> (r: Option<&Message>)
        ensures
            r == (if self@.messages.len() > 0 {
                Some(&self@.messages[0])
            } else {
                None
            }),
    {
        if self.messages.len() > 0 {
            Some(&self.messages[0])
        } else {
            None
        }
    }

    /// Whether nothing is left to hand out.
    pub fn is_empty(&self) -> (r: bool)
        ensures
            r == self@.drained(),
    {
        proof {
            assert(self@.drained() <==> self@ =~= empty_queue());
        }
        self.messages.len() == 0 && !self.pending_paint && !self.pending_timer
    }

    /// How many posted messages are in the queue, repaints and timers not counted.
    pub fn len(&self) -> (r: usize)
        ensures
            r == self@.messages.len(),
    {
        self.messages.len()
    }

    /// Discards everything.
    pub fn clear(&mut self)
        ensures
            final(self)@ == empty_queue(),
    {
        self.messages.clear();
        self.pending_paint = false;
        self.pending_timer = false;
    }
}

/// When a message is posted, and where the cursor is then.
#[derive(Clone, Copy, PartialEq, Eq, Structural, Debug)]
pub struct Stamp {
    pub time: u64,
    pub x: i32,
    pub y: i32,
}

/// The queues of all windows, and that of the system.
pub struct Queues {
    /// Queues by window; none before the start.
    pub windows: Option<BTreeMap<u64, MessageQueue>>,
    /// Queue of the messages that are for no window; none before the start.
    pub system: Option<MessageQueue>,
    /// What posting fills in.  Without it a message keeps what it came with.
    pub stamp: Option<Stamp>,
}

/// What the queues hold.
#[verifier::ext_equal]
pub struct QueuesView {
    pub windows: Option<Map<u64, QueueView>>,
    pub system: Option<QueueView>,
    pub stamp: Option<Stamp>,
}

/// What each queue of the map holds.
pub open spec fn held(m: Map<u64, MessageQueue>) -> Map<u64, QueueView> {
    m.map_values(|q: MessageQueue| q@)
}

impl View for Queues {
    type V = QueuesView;

    open spec fn view(&self) -> QueuesView {
        QueuesView {
            windows: match self.windows {
                Some(m) => Some(held(m@)),
                None => None,
            },
            system: match self.system {
                Some(q) => Some(q@),
                None => None,
            },
            stamp: self.stamp,
        }
    }
}

/// The message with the stamp filled in.
pub open spec fn stamped(m: Message, stamp: Option<Stamp>) -> Message {
    match stamp {
        Some(s) => Message { time: s.time, pt_x: s.x, pt_y: s.y, ..m },
        None => m,
    }
}

/// The next message of the queue of `hwnd`: a repaint or a timer is made out to it.
pub open spec fn addressed(q: QueueView, hwnd: u64) -> Option<Message> {
    match q.next() {
        Some(m) => if q.messages.len() == 0 {
            Some(Message { hwnd, ..m })
        } else {
            Some(m)
        },
        None => None,
    }
}

/// The handles of `d`, each once, in ascending order.
pub open spec fn lists(s: Seq<u64>, d: Set<u64>) -> bool {
    &&& forall|i: int, j: int| 0 <= i < j < s.len() ==> s[i] < s[j]
    &&& forall|h: u64| #[trigger] s.contains(h) <==> d.contains(h)
}

/// Messages in the queues of these windows.
pub open spec fn queued(s: Seq<u64>, w: Map<u64, QueueView>) -> nat
    decreases s.len(),
{
    if s.len() == 0 {
        0
    } else {
        queued(s.drop_last(), w) + w[s.last()].messages.len()
    }
}

impl QueuesView {
    /// The window has a queue.
    pub open spec fn has(self, hwnd: u64) -> bool {
        self.windows matches Some(w) && w.contains_key(hwnd)
    }

    /// The queue of a window that has one.
    pub open spec fn of(self, hwnd: u64) -> QueueView {
        self.windows->0[hwnd]
    }

    /// The windows that have a queue.
    pub open spec fn handles(self) -> Set<u64> {
        match self.windows {
            Some(w) => w.dom(),
            None => Set::empty(),
        }
    }

    /// With another queue for the window.
    pub open spec fn with(self, hwnd: u64, q: QueueView) -> QueuesView {
        match self.windows {
            Some(w) => QueuesView { windows: Some(w.insert(hwnd, q)), ..self },
            None => self,
        }
    }

    /// Without a queue for the window.
    pub open spec fn without(self, hwnd: u64) -> QueuesView {
        match self.windows {
            Some(w) => QueuesView { windows: Some(w.remove(hwnd)), ..self },
            None => self,
        }
    }

    /// The message as it is put in a queue.
    pub open spec fn posting(self, hwnd: u64, msg: u32, wparam: u64, lparam: u64) -> Message {
        stamped(fresh(hwnd, msg, wparam, lparam), self.stamp)
    }

    /// After a message was posted to the window.
    pub open spec fn posted(self, hwnd: u64, msg: u32, wparam: u64, lparam: u64) -> QueuesView {
        if self.has(hwnd) {
            self.with(hwnd, self.of(hwnd).pushed(self.posting(hwnd, msg, wparam, lparam)))
        } else {
            self
        }
    }

    /// After a message was posted to every window.
    pub open spec fn broadcast_to_all(self, msg: u32, wparam: u64, lparam: u64) -> QueuesView {
        match self.windows {
            Some(w) => QueuesView {
                windows: Some(
                    w.map_entries(
                        |hwnd: u64, q: QueueView| q.pushed(self.posting(hwnd, msg, wparam, lparam)),
                    ),
                ),
                ..self
            },
            None => self,
        }
    }

    /// The message that the window gets next.  It names the window, also where it is a
    /// repaint or a timer, which the queue only remembers.
    pub open spec fn next_for(self, hwnd: u64) -> Option<Message> {
        if self.has(hwnd) {
            addressed(self.of(hwnd), hwnd)
        } else {
            None
        }
    }

    /// After the window got its next message.
    pub open spec fn taken(self, hwnd: u64) -> QueuesView {
        if self.has(hwnd) {
            self.with(hwnd, self.of(hwnd).popped())
        } else {
            self
        }
    }

    /// The next message of the system.
    pub open spec fn next_system(self) -> Option<Message> {
        match self.system {
            Some(q) => q.next(),
            None => None,
        }
    }

    /// After the next message of the system was taken.
    pub open spec fn system_taken(self) -> QueuesView {
        match self.system {
            Some(q) => QueuesView { system: Some(q.popped()), ..self },
            None => self,
        }
    }

    /// After a message was posted to the system.
    pub open spec fn system_posted(self, m: Message) -> QueuesView {
        match self.system {
            Some(q) => QueuesView { system: Some(q.pushed(stamped(m, self.stamp))), ..self },
            None => self,
        }
    }
}

impl Queues {
    /// The queues before the start.
    pub fn new() -> (r: Queues)
        ensures
            r@ == (QueuesView { windows: None, system: None, stamp: None }),
    {
        Queues { windows: None, system: None, stamp: None }
    }
}

/// Fills in the stamp.
fn fill_in(m: Message, stamp: Option<Stamp>) -> (r: Message)
    ensures
        r == stamped(m, stamp),
{
    match stamp {
        Some(s) => Message { time: s.time, pt_x: s.x, pt_y: s.y, ..m },
        None => m,
    }
}

/// Starts with no window and an empty system queue.
pub fn init(q: &mut Queues)
    ensures
        final(q)@ == (QueuesView {
            windows: Some(Map::empty()),
            system: Some(empty_queue()),
            stamp: old(q)@.stamp,
        }),
{
    q.windows = Some(BTreeMap::new());
    q.system = Some(MessageQueue::new());
    proof {
        assert(q@.windows->0 =~= Map::empty());
    }
}

/// Gives the window an empty queue, in place of the one it has.
pub fn create_queue(q: &mut Queues, hwnd: u64)
    ensures
        final(q)@ == old(q)@.with(hwnd, empty_queue()),
{
    if let Some(map) = &mut q.windows {
        proof {
            broadcast use vstd::std_specs::btree::group_btree_axioms;
        }
        let queue = MessageQueue::new();
        map.insert(hwnd, queue);
    }
    proof {
        if old(q).windows is Some {
            assert(q@.windows->0 =~= old(q)@.windows->0.insert(hwnd, empty_queue()));
        }
    }
}

/// Takes the queue of the window away, and all that is in it.
pub fn destroy_queue(q: &mut Queues, hwnd: u64)
    ensures
        final(q)@ == old(q)@.without(hwnd),
{
    if let Some(map) = &mut q.windows {
        proof {
            broadcast use vstd::std_specs::btree::group_btree_axioms;
        }
        map.remove(&hwnd);
    }
    proof {
        if old(q).windows is Some {
            assert(q@.windows->0 =~= old(q)@.windows->0.remove(hwnd));
        }
    }
}

/// Posts a message to a window; `false` where the window has no queue or the queue is
/// full.
pub fn post_message(q: &mut Queues, hwnd: u64, msg: u32, wparam: u64, lparam: u64) -> (r: bool)
    ensures
        r == (old(q)@.has(hwnd) && old(q)@.of(hwnd).accepts(
            old(q)@.posting(hwnd, msg, wparam, lparam),
        )),
        final(q)@ == old(q)@.posted(hwnd, msg, wparam, lparam),
{
    let m: Message = fill_in(Message::new(hwnd, msg, wparam, lparam), q.stamp);
    if let Some(map) = &mut q.windows {
        post_in(map, hwnd, m)
    } else {
        false
    }
}

/// Posts a message to a queue of the map.
fn post_in(map: &mut BTreeMap<u64, MessageQueue>, hwnd: u64, m: Message) -> (r: bool)
    ensures
        r == (old(map)@.contains_key(hwnd) && old(map)@[hwnd]@.accepts(m)),
        held(final(map)@) == (if old(map)@.contains_key(hwnd) {
            held(old(map)@).insert(hwnd, old(map)@[hwnd]@.pushed(m))
        } else {
            held(old(map)@)
        }),
{
    proof {
        broadcast use vstd::std_specs::btree::group_btree_axioms;
    }
    if let Some(queue) = map.remove(&hwnd) {
        let mut queue = queue;
        let r: bool = queue.push(m);
        map.insert(hwnd, queue);
        proof {
            assert(held(map@) =~= held(old(map)@).insert(hwnd, old(map)@[hwnd]@.pushed(m)));
        }
        r
    } else {
        proof {
            assert(map@ =~= old(map)@);
        }
        false
    }
}

/// The handles of a map, in ascending order.
fn keys_of(map: &BTreeMap<u64, MessageQueue>) -> (r: Vec<u64>)
    ensures
        lists(r@, map@.dom()),
{
    proof {
        broadcast use vstd::std_specs::btree::group_btree_axioms;
    }
    let mut r: Vec<u64> = Vec::new();
    let it = map.iter();
    let ghost all = it.remaining();
    for kv in walk: it
        invariant
            walk.seq() == all,
            r@.len() == walk.index(),
            forall|j: int| 0 <= j < r@.len() ==> r@[j] == *(#[trigger] all[j]).0,
    {
        r.push(*kv.0);
    }
    proof {
        broadcast use vstd::std_specs::btree::group_btree_axioms;

        let keys = all.map_values(|kv: (&u64, &MessageQueue)| *kv.0);
        assert(vstd::std_specs::btree::increasing_seq(keys));
        assert(r@ =~= keys);
        assert forall|i: int, j: int| 0 <= i < j < r@.len() implies r@[i] < r@[j] by {
            assert(keys[i].cmp_spec(&keys[j]) is Less);
        }
        assert forall|h: u64| #[trigger] r@.contains(h) <==> map@.dom().contains(h) by {
            if r@.contains(h) {
                let i = choose|i: int| 0 <= i < r@.len() && r@[i] == h;
                assert(map@.contains_key(*all[i].0));
            }
            if map@.contains_key(h) {
                assert(all.contains((&h, &map@[h])));
                let i = choose|i: int| 0 <= i < all.len() && all[i] == (&h, &map@[h]);
                assert(r@[i] == h);
            }
        }
    }
    r
}

/// Posts a message to every window that has a queue.
pub fn broadcast_message(q: &mut Queues, msg: u32, wparam: u64, lparam: u64)
    ensures
        final(q)@ == old(q)@.broadcast_to_all(msg, wparam, lparam),
{
    let stamp: Option<Stamp> = q.stamp;
    if let Some(map) = &mut q.windows {
        let ghost before = held(map@);
        let hwnds: Vec<u64> = keys_of(map);
        let mut i: usize = 0;
        while i < hwnds.len()
            invariant
                i <= hwnds@.len(),
                lists(hwnds@, before.dom()),
                held(map@).dom() == before.dom(),
                forall|h: u64| #[trigger]
                    before.contains_key(h) ==> held(map@)[h] == (if hwnds@.take(i as int).contains(h) {
                        before[h].pushed(stamped(fresh(h, msg, wparam, lparam), stamp))
                    } else {
                        before[h]
                    }),
            decreases hwnds@.len() - i,
        {
            let hwnd: u64 = hwnds[i];
            let m: Message = fill_in(Message::new(hwnd, msg, wparam, lparam), stamp);
            let ghost mid = held(map@);
            proof {
                assert(hwnds@.contains(hwnds@[i as int]));
                assert(before.contains_key(hwnd));
                assert(mid.contains_key(hwnd));
                assert(!hwnds@.take(i as int).contains(hwnd));
            }
            let _ = post_in(map, hwnd, m);
            proof {
                let now = hwnds@.take(i + 1);
                assert(now =~= hwnds@.take(i as int).push(hwnd));
                assert(held(map@) == mid.insert(hwnd, mid[hwnd].pushed(m)));
                assert forall|h: u64| #[trigger] before.contains_key(h) implies held(map@)[h] == (
                if now.contains(h) {
                    before[h].pushed(stamped(fresh(h, msg, wparam, lparam), stamp))
                } else {
                    before[h]
                }) by {
                    assert(now.contains(h) <==> hwnds@.take(i as int).contains(h) || h == hwnd) by {
                        if h == hwnd {
                            assert(now[i as int] == h);
                        }
                        if hwnds@.take(i as int).contains(h) {
                            let k = choose|k: int| 0 <= k < i && hwnds@.take(i as int)[k] == h;
                            assert(now[k] == h);
                        }
                    }
                }
                assert(held(map@).dom() =~= before.dom());
            }
            i += 1;
        }
        proof {
            assert(hwnds@.take(i as int) =~= hwnds@);
            let want = before.map_entries(
                |h: u64, w: QueueView| w.pushed(stamped(fresh(h, msg, wparam, lparam), stamp)),
            );
            assert forall|h: u64| #[trigger] held(map@).contains_key(h) implies held(map@)[h]
                == want[h] by {
                assert(before.contains_key(h));
                assert(hwnds@.contains(h));
            }
            assert(held(map@) =~= want);
        }
    }
    proof {
        assert(q@.windows is Some ==> q@.windows->0 =~= old(q)@.broadcast_to_all(
            msg,
            wparam,
            lparam,
        ).windows->0);
    }
}

/// The oldest message posted to the window, which stays in the queue.
pub fn peek_message(q: &Queues, hwnd: u64) -> (r: Option<Message>)
    ensures
        r == (if q@.has(hwnd) && q@.of(hwnd).messages.len() > 0 {
            Some(q@.of(hwnd).messages[0])
        } else {
            None
        }),
        r is Some ==> r == q@.next_for(hwnd),
{
    proof {
        broadcast use vstd::std_specs::btree::group_btree_axioms;
    }
    if let Some(map) = &q.windows {
        if let Some(queue) = map.get(&hwnd) {
            return match queue.peek() {
                Some(m) => Some(*m),
                None => None,
            };
        }
    }
    None
}

/// Takes the next message of a queue of the map.
fn take_from(map: &mut BTreeMap<u64, MessageQueue>, hwnd: u64) -> (r: Option<Message>)
    ensures
        r == (if old(map)@.contains_key(hwnd) {
            addressed(old(map)@[hwnd]@, hwnd)
        } else {
            None
        }),
        held(final(map)@) == (if old(map)@.contains_key(hwnd) {
            held(old(map)@).insert(hwnd, old(map)@[hwnd]@.popped())
        } else {
            held(old(map)@)
        }),
{
    proof {
        broadcast use vstd::std_specs::btree::group_btree_axioms;
    }
    if let Some(queue) = map.remove(&hwnd) {
        let mut queue = queue;
        let remembered: bool = queue.messages.len() == 0;
        let r: Option<Message> = match queue.pop() {
            Some(m) => if remembered {
                Some(Message { hwnd, ..m })
            } else {
                Some(m)
            },
            None => None,
        };
        map.insert(hwnd, queue);
        proof {
            assert(held(map@) =~= held(old(map)@).insert(hwnd, old(map)@[hwnd]@.popped()));
        }
        r
    } else {
        proof {
            assert(map@ =~= old(map)@);
        }
        None
    }
}

/// A window that has nothing left stays as it is.
pub proof fn lemma_nothing_taken(q: QueuesView, hwnd: u64)
    requires
        q.next_for(hwnd) is None,
    ensures
        q.taken(hwnd) == q,
{
    if q.has(hwnd) {
        law_pop_takes_one(q.of(hwnd));
        assert(q.taken(hwnd).windows->0 =~= q.windows->0);
    }
}

/// Takes the next message of a window: the oldest one posted, or, when none is left, a
/// wanted repaint, then a timer.
pub fn get_message(q: &mut Queues, hwnd: u64) -> (r: Option<Message>)
    ensures
        r == old(q)@.next_for(hwnd),
        final(q)@ == old(q)@.taken(hwnd),
{
    if let Some(map) = &mut q.windows {
        take_from(map, hwnd)
    } else {
        None
    }
}

/// Whether anything is left for the window.
pub fn has_messages(q: &Queues, hwnd: u64) -> (r: bool)
    ensures
        r == (q@.has(hwnd) && !q@.of(hwnd).drained()),
        r == q@.next_for(hwnd) is Some,
{
    proof {
        broadcast use vstd::std_specs::btree::group_btree_axioms;
    }
    if let Some(map) = &q.windows {
        if let Some(queue) = map.get(&hwnd) {
            proof {
                law_pop_takes_one(q@.of(hwnd));
            }
            return !queue.is_empty();
        }
    }
    false
}

/// There is one ascending list of a set of handles.
proof fn lemma_one_list(s: Seq<u64>, t: Seq<u64>, d: Set<u64>)
    requires
        lists(s, d),
        lists(t, d),
    ensures
        s == t,
    decreases s.len(),
{
    if s.len() == 0 {
        if t.len() > 0 {
            assert(t.contains(t[0]));
            assert(s.contains(t[0]));
        }
        assert(s =~= t);
    } else {
        assert(s.contains(s.last()));
        assert(t.contains(s.last()));
        assert(t.contains(t.last()));
        assert(s.contains(t.last()));
        let i = choose|i: int| 0 <= i < t.len() && t[i] == s.last();
        let j = choose|j: int| 0 <= j < s.len() && s[j] == t.last();
        assert(s.last() == t.last());
        let less = d.remove(s.last());
        lemma_shorter(s, d);
        lemma_shorter(t, d);
        lemma_one_list(s.drop_last(), t.drop_last(), less);
        assert(s =~= s.drop_last().push(s.last()));
        assert(t =~= t.drop_last().push(t.last()));
    }
}

/// A list without its last handle lists the rest.
proof fn lemma_shorter(s: Seq<u64>, d: Set<u64>)
    requires
        lists(s, d),
        s.len() > 0,
    ensures
        lists(s.drop_last(), d.remove(s.last())),
{
    let less = s.drop_last();
    assert forall|h: u64| #[trigger] less.contains(h) <==> d.remove(s.last()).contains(h) by {
        if less.contains(h) {
            let i = choose|i: int| 0 <= i < less.len() && less[i] == h;
            assert(s[i] == h);
            assert(s.contains(h));
        }
        if d.remove(s.last()).contains(h) {
            assert(s.contains(h));
            let i = choose|i: int| 0 <= i < s.len() && s[i] == h;
            assert(less[i] == h);
        }
    }
}

/// A part of the windows holds no more than all of them.
proof fn lemma_queued_prefix(s: Seq<u64>, n: int, w: Map<u64, QueueView>)
    requires
        0 <= n <= s.len(),
    ensures
        queued(s.take(n), w) <= queued(s, w),
    decreases s.len() - n,
{
    if n == s.len() {
        assert(s.take(n) =~= s);
    } else {
        lemma_queued_prefix(s, n + 1, w);
        assert(s.take(n + 1).drop_last() =~= s.take(n));
    }
}

/// How many posted messages wait in the queues of all windows.
pub fn total_queued_messages(q: &Queues) -> (r: usize)
    ensures
        q@.windows is None ==> r == 0,
        q@.windows matches Some(w) ==> forall|s: Seq<u64>| #[trigger]
            lists(s, w.dom()) && queued(s, w) <= usize::MAX ==> r == queued(s, w),
{
    if let Some(map) = &q.windows {
        let hwnds: Vec<u64> = keys_of(map);
        let ghost w = held(map@);
        proof {
            assert(w.dom() =~= map@.dom());
        }
        let mut total: usize = 0;
        let mut i: usize = 0;
        while i < hwnds.len()
            invariant
                i <= hwnds@.len(),
                lists(hwnds@, map@.dom()),
                w == held(map@),
                queued(hwnds@, w) <= usize::MAX ==> total == queued(hwnds@.take(i as int), w),
            decreases hwnds@.len() - i,
        {
            proof {
                broadcast use vstd::std_specs::btree::group_btree_axioms;

                assert(hwnds@.contains(hwnds@[i as int]));
                lemma_queued_prefix(hwnds@, i + 1, w);
                assert(hwnds@.take(i + 1).drop_last() =~= hwnds@.take(i as int));
            }
            if let Some(queue) = map.get(&hwnds[i]) {
                total = total.wrapping_add(queue.len());
            }
            i += 1;
        }
        proof {
            assert(hwnds@.take(i as int) =~= hwnds@);
            assert(q@.windows == Some(w));
            assert forall|s: Seq<u64>| #[trigger] lists(s, w.dom()) && queued(s, w)
                <= usize::MAX implies total == queued(s, w) by {
                lemma_one_list(s, hwnds@, w.dom());
            }
        }
        total
    } else {
        0
    }
}

/// The windows that have a queue, in ascending order of their handles.
pub fn all_handles(q: &Queues) -> (r: Vec<u64>)
    ensures
        lists(r@, q@.handles()),
{
    if let Some(map) = &q.windows {
        let r: Vec<u64> = keys_of(map);
        proof {
            assert(q@.handles() =~= map@.dom());
        }
        r
    } else {
        Vec::new()
    }
}

/// Posts a message to the system; a full queue drops it.
pub fn post_system_message(q: &mut Queues, msg: Message)
    ensures
        final(q)@ == old(q)@.system_posted(msg),
{
    let m: Message = fill_in(msg, q.stamp);
    if let Some(queue) = &mut q.system {
        let _ = queue.push(m);
    }
}

/// Takes the next message of the system.
pub fn get_system_message(q: &mut Queues) -> (r: Option<Message>)
    ensures
        r == old(q)@.next_system(),
        final(q)@ == old(q)@.system_taken(),
{
    if let Some(queue) = &mut q.system {
        queue.pop()
    } else {
        None
    }
}

/// The queue after all of these messages were pushed, one after the other.
pub open spec fn pushed_all(q: QueueView, s: Seq<Message>) -> QueueView
    decreases s.len(),
{
    if s.len() == 0 {
        q
    } else {
        pushed_all(q, s.drop_last()).pushed(s.last())
    }
}

/// Everything that the queue hands out until nothing is left.
pub open spec fn popped_all(q: QueueView) -> Seq<Message>
    decreases q.pending(),
{
    match q.next() {
        Some(m) => seq![m] + popped_all(q.popped()),
        None => Seq::empty(),
    }
}

/// A message that takes up room in a queue.
pub open spec fn ordinary(m: Message) -> bool {
    m.msg != WM_PAINT && m.msg != WM_TIMER
}

/// Pushing ordinary messages appends them as far as there is room.
proof fn lemma_pushed_all(q: QueueView, s: Seq<Message>)
    requires
        forall|i: int| 0 <= i < s.len() ==> ordinary(#[trigger] s[i]),
        q.messages.len() + s.len() <= MAX_QUEUE_SIZE,
    ensures
        pushed_all(q, s) == (QueueView { messages: q.messages + s, ..q }),
    decreases s.len(),
{
    if s.len() == 0 {
        assert(q.messages + s =~= q.messages);
    } else {
        let less = s.drop_last();
        assert forall|i: int| 0 <= i < less.len() implies ordinary(#[trigger] less[i]) by {
            assert(ordinary(s[i]));
        }
        lemma_pushed_all(q, less);
        assert(ordinary(s.last()));
        assert((q.messages + less).push(s.last()) =~= q.messages + s);
    }
}

/// A queue hands out its posted messages in their order, then a wanted repaint, then a
/// timer.
pub proof fn law_order_of_delivery(q: QueueView)
    ensures
        popped_all(q) == q.messages + (if q.pending_paint {
            seq![fresh(0, WM_PAINT, 0, 0)]
        } else {
            Seq::empty()
        }) + (if q.pending_timer {
            seq![fresh(0, WM_TIMER, 0, 0)]
        } else {
            Seq::empty()
        }),
    decreases q.pending(),
{
    if let Some(m) = q.next() {
        law_order_of_delivery(q.popped());
        if q.messages.len() > 0 {
            assert(q.messages =~= seq![m] + q.messages.drop_first());
        }
    }
    assert(popped_all(q) =~= q.messages + (if q.pending_paint {
        seq![fresh(0, WM_PAINT, 0, 0)]
    } else {
        Seq::empty()
    }) + (if q.pending_timer {
        seq![fresh(0, WM_TIMER, 0, 0)]
    } else {
        Seq::empty()
    }));
}

/// What is pushed into an empty queue comes out in the same order, as long as there is
/// room for it.
pub proof fn law_first_in_first_out(s: Seq<Message>)
    requires
        s.len() <= MAX_QUEUE_SIZE,
        forall|i: int| 0 <= i < s.len() ==> ordinary(#[trigger] s[i]),
    ensures
        popped_all(pushed_all(empty_queue(), s)) == s,
{
    lemma_pushed_all(empty_queue(), s);
    law_order_of_delivery(pushed_all(empty_queue(), s));
    assert(popped_all(pushed_all(empty_queue(), s)) =~= s);
}

/// Any number of repaints counts as one, and so for timers.
pub proof fn law_repaints_and_timers_are_merged(q: QueueView, m: Message, n: Message)
    requires
        !ordinary(m),
        m.msg == n.msg,
    ensures
        q.pushed(m).pushed(n) == q.pushed(m),
        q.accepts(m),
{
}

/// No queue ever holds more than its bound, and a message is dropped only from a full
/// queue.
pub proof fn law_queue_is_bounded(q: QueueView, m: Message)
    requires
        q.wf(),
    ensures
        q.pushed(m).wf(),
        q.popped().wf(),
        empty_queue().wf(),
        !q.accepts(m) <==> ordinary(m) && q.messages.len() == MAX_QUEUE_SIZE,
        !q.accepts(m) ==> q.pushed(m) == q,
{
}

/// Taking a message takes exactly one; an empty queue stays as it is.
pub proof fn law_pop_takes_one(q: QueueView)
    ensures
        q.next() is None <==> q.drained(),
        q.drained() ==> q.popped() == q,
        !q.drained() ==> q.popped().pending() + 1 == q.pending(),
{
    assert(q.next() is None ==> q =~= empty_queue());
}

/// Looking ahead shows the message that is taken next, as long as one is posted.
pub proof fn law_peek_shows_what_comes_next(q: QueueView)
    requires
        q.messages.len() > 0,
    ensures
        q.next() == Some(q.messages[0]),
        q.popped().messages == q.messages.skip(1),
{
    assert(q.popped().messages =~= q.messages.skip(1));
}

/// A window without a queue takes no message, and after its queue was destroyed it has
/// none; other windows keep theirs.
pub proof fn law_destroyed_window_gets_nothing(
    q: QueuesView,
    hwnd: u64,
    other: u64,
    msg: u32,
    wparam: u64,
    lparam: u64,
)
    requires
        other != hwnd,
    ensures
        !q.without(hwnd).has(hwnd),
        q.without(hwnd).posted(hwnd, msg, wparam, lparam) == q.without(hwnd),
        q.without(hwnd).next_for(hwnd) is None,
        q.without(hwnd).has(other) == q.has(other),
        q.has(other) ==> q.without(hwnd).of(other) == q.of(other),
{
}

/// A message posted to a window whose queue is drained is the next one that it gets, and
/// no other window sees it.
pub proof fn law_posted_message_arrives(
    q: QueuesView,
    hwnd: u64,
    other: u64,
    msg: u32,
    wparam: u64,
    lparam: u64,
)
    requires
        q.has(hwnd),
        q.of(hwnd).drained(),
        ordinary(fresh(hwnd, msg, wparam, lparam)),
        other != hwnd,
    ensures
        q.posted(hwnd, msg, wparam, lparam).next_for(hwnd) == Some(
            q.posting(hwnd, msg, wparam, lparam),
        ),
        q.posted(hwnd, msg, wparam, lparam).taken(hwnd) == q,
        q.posted(hwnd, msg, wparam, lparam).has(other) == q.has(other),
        q.has(other) ==> q.posted(hwnd, msg, wparam, lparam).of(other) == q.of(other),
{
    let after = q.posted(hwnd, msg, wparam, lparam).taken(hwnd);
    assert(after.of(hwnd) =~= q.of(hwnd));
    assert(after.windows->0 =~= q.windows->0);
}

/// Whatever a window gets from its queue names it: repaints and timers always do, and
/// other messages do where they were posted to it.
pub proof fn law_message_names_its_window(q: QueuesView, hwnd: u64)
    requires
        q.has(hwnd),
        forall|i: int|
            0 <= i < q.of(hwnd).messages.len() ==> (#[trigger] q.of(hwnd).messages[i]).hwnd == hwnd,
    ensures
        q.next_for(hwnd) matches Some(m) ==> m.hwnd == hwnd,
        forall|i: int|
            0 <= i < q.taken(hwnd).of(hwnd).messages.len() ==> (#[trigger] q.taken(hwnd).of(
                hwnd,
            ).messages[i]).hwnd == hwnd,
        forall|i: int, msg: u32, wparam: u64, lparam: u64|
            0 <= i < q.posted(hwnd, msg, wparam, lparam).of(hwnd).messages.len() ==> (
            #[trigger] q.posted(hwnd, msg, wparam, lparam).of(hwnd).messages[i]).hwnd == hwnd,
{
    let t = q.taken(hwnd).of(hwnd).messages;
    assert forall|i: int| 0 <= i < t.len() implies (#[trigger] t[i]).hwnd == hwnd by {
        if q.of(hwnd).messages.len() > 0 {
            assert(t[i] == q.of(hwnd).messages[i + 1]);
        }
    }
    assert forall|i: int, msg: u32, wparam: u64, lparam: u64|
        0 <= i < q.posted(hwnd, msg, wparam, lparam).of(hwnd).messages.len() implies (
    #[trigger] q.posted(hwnd, msg, wparam, lparam).of(hwnd).messages[i]).hwnd == hwnd by {
        if i < q.of(hwnd).messages.len() {
            assert(q.of(hwnd).messages[i].hwnd == hwnd);
        }
    }
}

/// A repaint or a timer that is posted to a window with nothing else to do is what the
/// window gets next, and then it has nothing left.
pub proof fn law_repaint_arrives(q: QueuesView, hwnd: u64, msg: u32, wparam: u64, lparam: u64)
    requires
        q.has(hwnd),
        q.of(hwnd).drained(),
        msg == WM_PAINT || msg == WM_TIMER,
    ensures
        q.posted(hwnd, msg, wparam, lparam).next_for(hwnd) == Some(fresh(hwnd, msg, 0, 0)),
        q.posted(hwnd, msg, wparam, lparam).taken(hwnd) == q,
{
    let after = q.posted(hwnd, msg, wparam, lparam).taken(hwnd);
    assert(after.of(hwnd) =~= q.of(hwnd));
    assert(after.windows->0 =~= q.windows->0);
}

/// A broadcast does to each window what posting to it does.
pub proof fn law_broadcast_reaches_every_window(
    q: QueuesView,
    hwnd: u64,
    msg: u32,
    wparam: u64,
    lparam: u64,
)
    ensures
        q.broadcast_to_all(msg, wparam, lparam).has(hwnd) == q.has(hwnd),
        q.has(hwnd) ==> q.broadcast_to_all(msg, wparam, lparam).of(hwnd) == q.posted(
            hwnd,
            msg,
            wparam,
            lparam,
        ).of(hwnd),
        q.broadcast_to_all(msg, wparam, lparam).system == q.system,
{
}

} // verus!
