//! The shared state of a multi-producer, multi-consumer channel with no bound, and the rules by
//! which senders, receivers and waiting receive calls change it. The state does not wake
//! anyone itself: each operation hands back the wakers that its caller must wake.
use vstd::prelude::*;

verus! {

broadcast use vstd::std_specs::vecdeque::axiom_spec_len;

/// A send that failed because no receiver is left; it gives the message back.
#[derive(Debug)]
pub struct SendError<T>(pub T);

/// A receive that failed because the queue is empty and no sender is left.
#[derive(Debug, Clone, Copy, PartialEq, Eq, Structural)]
pub struct RecvError;

/// The outcome of one attempt of a waiting receive call, identified by its id.
pub enum RecvPoll<T, W> {
    /// The call is done; the caller must wake the waker, if any, that came along.
    Ready(Result<T, RecvError>, Option<W>),
    /// The call waits; its waker is now registered under its id.
    Pending,
}

/// The abstract state of a channel.
pub struct ChannelView<T, W> {
    /// The messages sent and not yet received, oldest first.
    pub queue: Seq<T>,
    pub senders: usize,
    pub receivers: usize,
    /// The wakers of waiting receive calls with their ids, in registration order.
    pub wakers: Seq<(usize, W)>,
    /// The id the next receive call gets.
    pub next_id: usize,
}

/// No two registered wakers have the same id.
pub open spec fn ids_distinct<W>(ws: Seq<(usize, W)>) -> bool {
    forall|a: int, b: int| 0 <= a < b < ws.len() ==> (#[trigger] ws[a]).0 != (#[trigger] ws[b]).0
}

/// Whether some registered waker has id `id`.
pub open spec fn has_id<W>(ws: Seq<(usize, W)>, id: usize) -> bool {
    exists|k: int| 0 <= k < ws.len() && (#[trigger] ws[k]).0 == id
}

/// The wakers without the one registered under `id`, if any.
pub open spec fn without_id<W>(ws: Seq<(usize, W)>, id: usize) -> Seq<(usize, W)> {
    if has_id(ws, id) {
        ws.remove(choose|k: int| 0 <= k < ws.len() && (#[trigger] ws[k]).0 == id)
    } else {
        ws
    }
}

/// The wakers alone, in order.
pub open spec fn waker_values<W>(ws: Seq<(usize, W)>) -> Seq<W> {
    ws.map_values(|p: (usize, W)| p.1)
}

/// A send of `msg`: refused with the message when no receiver is left; otherwise the message
/// joins the queue and the longest-waiting receive call, if any, is woken.
pub open spec fn send_step<T, W>(s: ChannelView<T, W>, msg: T) -> (ChannelView<T, W>, Result<(), SendError<T>>, Option<W>) {
    if s.receivers == 0 {
        (s, Err(SendError(msg)), None)
    } else if s.wakers.len() > 0 {
        (ChannelView { queue: s.queue.push(msg), wakers: s.wakers.drop_first(), ..s }, Ok(()), Some(s.wakers[0].1))
    } else {
        (ChannelView { queue: s.queue.push(msg), ..s }, Ok(()), None)
    }
}

/// One attempt of receive call `id` with waker `w`: the oldest message if there is one (waking
/// the next waiting call when more messages remain); an error when the queue is empty and no
/// sender is left; otherwise the call registers `w` under its id, in place of any earlier one.
pub open spec fn poll_step<T, W>(s: ChannelView<T, W>, id: usize, w: W) -> (ChannelView<T, W>, RecvPoll<T, W>) {
    if s.queue.len() > 0 {
        let rest = s.queue.drop_first();
        if rest.len() > 0 && s.wakers.len() > 0 {
            (ChannelView { queue: rest, wakers: s.wakers.drop_first(), ..s }, RecvPoll::Ready(Ok(s.queue[0]), Some(s.wakers[0].1)))
        } else {
            (ChannelView { queue: rest, ..s }, RecvPoll::Ready(Ok(s.queue[0]), None))
        }
    } else if s.senders == 0 {
        (s, RecvPoll::Ready(Err(RecvError), None))
    } else {
        (ChannelView { wakers: without_id(s.wakers, id).push((id, w)), ..s }, RecvPoll::Pending)
    }
}

/// The state of a channel: its queue, how many senders and receivers are alive, the wakers of
/// waiting receive calls, and the id of the next receive call.
pub struct ChannelState<T, W> {
    queue: std::collections::VecDeque<T>,
    sender_count: usize,
    receiver_count: usize,
    wakers: std::collections::VecDeque<(usize, W)>,
    next_waker_id: usize,
}

impl<T, W> View for ChannelState<T, W> {
    type V = ChannelView<T, W>;

    closed spec fn view(&self) -> ChannelView<T, W> {
        ChannelView {
            queue: self.queue@,
            senders: self.sender_count,
            receivers: self.receiver_count,
            wakers: self.wakers@,
            next_id: self.next_waker_id,
        }
    }
}

impl<T, W> ChannelState<T, W> {
    /// The ids of the registered wakers are distinct.
    pub open spec fn wf(&self) -> bool {
        ids_distinct(self@.wakers)
    }

    /// A new channel: one sender, one receiver, nothing queued, nobody waiting.
    pub fn new() -> (r: Self)
        ensures
            r.wf(),
            r@.queue == Seq::<T>::empty(),
            r@.senders == 1,
            r@.receivers == 1,
            r@.wakers == Seq::<(usize, W)>::empty(),
            r@.next_id == 0,
    {
        ChannelState {
            queue: std::collections::VecDeque::new(),
            sender_count: 1,
            receiver_count: 1,
            wakers: std::collections::VecDeque::new(),
            next_waker_id: 0,
        }
    }

    /// Sends `msg`; see [`send_step`]. The caller wakes the returned waker.
    pub fn send(&mut self, msg: T) -> (r: (Result<(), SendError<T>>, Option<W>))
        requires
            old(self).wf(),
        ensures
            final(self).wf(),
            (final(self)@, r.0, r.1) == send_step(old(self)@, msg),
    {
        if self.receiver_count == 0 {
            return (Err(SendError(msg)), None);
        }
        self.queue.push_back(msg);
        let woken = match self.wakers.pop_front() {
            Some(p) => Some(p.1),
            None => None,
        };
        proof {
            assert(self@.queue =~= old(self)@.queue.push(msg));
            if old(self)@.wakers.len() > 0 {
                assert(self@.wakers =~= old(self)@.wakers.drop_first());
            }
        }
        (Ok(()), woken)
    }

    /// How many senders are alive.
    pub fn senders(&self) -> (r: usize)
        ensures
            r == self@.senders,
    {
        self.sender_count
    }

    /// How many receivers are alive.
    pub fn receivers(&self) -> (r: usize)
        ensures
            r == self@.receivers,
    {
        self.receiver_count
    }

    /// A sender was cloned.
    pub fn add_sender(&mut self)
        requires
            old(self).wf(),
            old(self)@.senders < usize::MAX,
        ensures
            final(self).wf(),
            final(self)@ == (ChannelView { senders: (old(self)@.senders + 1) as usize, ..old(self)@ }),
    {
        self.sender_count = self.sender_count + 1;
    }

    /// A sender was dropped. When it was the last one, every waiting receive call is woken:
    /// the caller wakes the returned wakers.
    pub fn drop_sender(&mut self) -> (woken: Vec<W>)
        requires
            old(self).wf(),
            old(self)@.senders > 0,
        ensures
            final(self).wf(),
            final(self)@.senders == old(self)@.senders - 1,
            final(self)@.senders > 0 ==> final(self)@ == (ChannelView { senders: final(self)@.senders, ..old(self)@ })
                && woken@ == Seq::<W>::empty(),
            final(self)@.senders == 0 ==> final(self)@ == (ChannelView {
                senders: 0,
                wakers: Seq::<(usize, W)>::empty(),
                ..old(self)@
            }) && woken@ == waker_values(old(self)@.wakers),
    {
        self.sender_count = self.sender_count - 1;
        let mut woken: Vec<W> = Vec::new();
        if self.sender_count == 0 {
            let ghost ws = self.wakers@;
            let ghost v0 = self@;
            while self.wakers.len() > 0
                invariant
                    self@ == (ChannelView { wakers: self@.wakers, ..v0 }),
                    v0 == (ChannelView { senders: 0, ..old(self)@ }),
                    ws == old(self)@.wakers,
                    woken@.len() + self.wakers@.len() == ws.len(),
                    woken@ == waker_values(ws).take(woken@.len() as int),
                    self.wakers@ == ws.skip(woken@.len() as int),
                decreases self.wakers@.len(),
            {
                let p = self.wakers.pop_front().unwrap();
                proof {
                    assert(p == ws[woken@.len() as int]);
                }
                woken.push(p.1);
                proof {
                    assert(woken@ =~= waker_values(ws).take(woken@.len() as int));
                    assert(self.wakers@ =~= ws.skip(woken@.len() as int));
                }
            }
            proof {
                assert(woken@ =~= waker_values(ws));
                assert(self@.wakers =~= Seq::<(usize, W)>::empty());
            }
        }
        woken
    }

    /// A receiver was cloned.
    pub fn add_receiver(&mut self)
        requires
            old(self).wf(),
            old(self)@.receivers < usize::MAX,
        ensures
            final(self).wf(),
            final(self)@ == (ChannelView { receivers: (old(self)@.receivers + 1) as usize, ..old(self)@ }),
    {
        self.receiver_count = self.receiver_count + 1;
    }

    /// A receiver was dropped.
    pub fn drop_receiver(&mut self)
        requires
            old(self).wf(),
            old(self)@.receivers > 0,
        ensures
            final(self).wf(),
            final(self)@ == (ChannelView { receivers: (old(self)@.receivers - 1) as usize, ..old(self)@ }),
    {
        self.receiver_count = self.receiver_count - 1;
    }

    /// Starts a receive call: its id, after which the next id follows, wrapping around.
    pub fn start_recv(&mut self) -> (id: usize)
        requires
            old(self).wf(),
        ensures
            final(self).wf(),
            id == old(self)@.next_id,
            final(self)@ == (ChannelView {
                next_id: if old(self)@.next_id == usize::MAX { 0 } else { (old(self)@.next_id + 1) as usize },
                ..old(self)@
            }),
    {
        let id = self.next_waker_id;
        self.next_waker_id = if self.next_waker_id == usize::MAX { 0 } else { self.next_waker_id + 1 };
        id
    }

    /// The position of the waker registered under `id`.
    fn find_waker(&self, id: usize) -> (r: Option<usize>)
        ensures
            match r {
                Some(k) => k < self@.wakers.len() && self@.wakers[k as int].0 == id,
                None => !has_id(self@.wakers, id),
            },
    {
        let mut k: usize = 0;
        while k < self.wakers.len()
            invariant
                k <= self@.wakers.len(),
                forall|j: int| 0 <= j < k ==> (#[trigger] self@.wakers[j]).0 != id,
            decreases self@.wakers.len() - k,
        {
            if self.wakers[k].0 == id {
                return Some(k);
            }
            k = k + 1;
        }
        None
    }

    /// Removes the waker registered under `id`, if any.
    fn remove_waker(&mut self, id: usize)
        requires
            old(self).wf(),
        ensures
            final(self).wf(),
            final(self)@ == (ChannelView { wakers: without_id(old(self)@.wakers, id), ..old(self)@ }),
            !has_id(final(self)@.wakers, id),
    {
        match self.find_waker(id) {
            Some(k) => {
                let ghost ws = self.wakers@;
                let ghost c = choose|j: int| 0 <= j < ws.len() && (#[trigger] ws[j]).0 == id;
                proof {
                    assert(ws[k as int].0 == id);
                    if c != k {
                        if c < k {
                            assert(ws[c].0 != ws[k as int].0);
                        } else {
                            assert(ws[k as int].0 != ws[c].0);
                        }
                    }
                }
                self.wakers.remove(k);
                proof {
                    let nw = self@.wakers;
                    assert(nw == ws.remove(k as int));
                    assert forall|a: int, b: int| 0 <= a < b < nw.len() implies (#[trigger] nw[a]).0 != (#[trigger] nw[b]).0 by {
                        let a2 = if a < k { a } else { a + 1 };
                        let b2 = if b < k { b } else { b + 1 };
                        assert(nw[a] == ws[a2] && nw[b] == ws[b2]);
                    }
                    assert forall|j: int| 0 <= j < nw.len() implies (#[trigger] nw[j]).0 != id by {
                        let j2 = if j < k { j } else { j + 1 };
                        assert(nw[j] == ws[j2]);
                        if j2 < k {
                            assert(ws[j2].0 != ws[k as int].0);
                        } else {
                            assert(ws[k as int].0 != ws[j2].0);
                        }
                    }
                }
            },
            None => {},
        }
    }

    /// One attempt of receive call `id`, with the waker of its task; see [`poll_step`].
    pub fn poll(&mut self, id: usize, waker: W) -> (r: RecvPoll<T, W>)
        requires
            old(self).wf(),
        ensures
            final(self).wf(),
            (final(self)@, r) == poll_step(old(self)@, id, waker),
    {
        match self.queue.pop_front() {
            Some(msg) => {
                let mut woken: Option<W> = None;
                if self.queue.len() > 0 {
                    woken = match self.wakers.pop_front() {
                        Some(p) => Some(p.1),
                        None => None,
                    };
                }
                proof {
                    assert(self@.queue =~= old(self)@.queue.drop_first());
                    if self@.queue.len() > 0 && old(self)@.wakers.len() > 0 {
                        assert(self@.wakers =~= old(self)@.wakers.drop_first());
                    }
                }
                RecvPoll::Ready(Ok(msg), woken)
            },
            None => {
                if self.sender_count == 0 {
                    return RecvPoll::Ready(Err(RecvError), None);
                }
                self.remove_waker(id);
                self.wakers.push_back((id, waker));
                proof {
                    let nw = self@.wakers;
                    let pw = without_id(old(self)@.wakers, id);
                    assert(nw == pw.push((id, waker)));
                    assert forall|a: int, b: int| 0 <= a < b < nw.len() implies (#[trigger] nw[a]).0 != (#[trigger] nw[b]).0 by {
                        if b == nw.len() - 1 {
                            assert(nw[a] == pw[a]);
                        } else {
                            assert(nw[a] == pw[a] && nw[b] == pw[b]);
                        }
                    }
                }
                RecvPoll::Pending
            },
        }
    }

    /// A waiting receive call was dropped: its waker, if any, is removed.
    pub fn cancel(&mut self, id: usize)
        requires
            old(self).wf(),
        ensures
            final(self).wf(),
            final(self)@ == (ChannelView { wakers: without_id(old(self)@.wakers, id), ..old(self)@ }),
            !has_id(final(self)@.wakers, id),
    {
        self.remove_waker(id);
    }
}

/// The state after sending each message of `msgs` in turn.
pub open spec fn send_all<T, W>(s: ChannelView<T, W>, msgs: Seq<T>) -> ChannelView<T, W>
    decreases msgs.len(),
{
    if msgs.len() == 0 {
        s
    } else {
        send_step(send_all(s, msgs.drop_last()), msgs.last()).0
    }
}

/// While a receiver is alive, sent messages join the queue in the order they were sent, and
/// the counts and the next id stay as they were.
pub proof fn law_sends_queue_in_order<T, W>(s: ChannelView<T, W>, msgs: Seq<T>)
    requires
        s.receivers > 0,
    ensures
        send_all(s, msgs).queue == s.queue + msgs,
        send_all(s, msgs).senders == s.senders,
        send_all(s, msgs).receivers == s.receivers,
        send_all(s, msgs).next_id == s.next_id,
    decreases msgs.len(),
{
    if msgs.len() > 0 {
        law_sends_queue_in_order(s, msgs.drop_last());
        assert(s.queue + msgs.drop_last() + seq![msgs.last()] =~= s.queue + msgs);
    }
}

/// A receive attempt on a non-empty queue gets the oldest message and leaves the rest in order,
/// whether or not senders are left.
pub proof fn law_receive_oldest<T, W>(s: ChannelView<T, W>, id: usize, w: W)
    requires
        s.queue.len() > 0,
    ensures
        poll_step(s, id, w).1 matches RecvPoll::Ready(Ok(m), _) && m == s.queue[0],
        poll_step(s, id, w).0.queue == s.queue.drop_first(),
{
}

/// First in, first out: messages sent into an empty channel with a receiver come out in the
/// order they were sent.
pub proof fn law_fifo<T, W>(s: ChannelView<T, W>, msgs: Seq<T>, id: usize, w: W)
    requires
        s.receivers > 0,
        s.queue.len() == 0,
        msgs.len() > 0,
    ensures
        poll_step(send_all(s, msgs), id, w).1 matches RecvPoll::Ready(Ok(m), _) && m == msgs[0],
        poll_step(send_all(s, msgs), id, w).0.queue == msgs.drop_first(),
{
    law_sends_queue_in_order(s, msgs);
    assert(s.queue + msgs =~= msgs);
}

/// With no receiver left a send is refused, gives the message back and changes nothing; with a
/// receiver it is accepted.
pub proof fn law_send_refused_iff_no_receiver<T, W>(s: ChannelView<T, W>, msg: T)
    ensures
        s.receivers == 0 ==> send_step(s, msg).1 == Err::<(), SendError<T>>(SendError(msg)) && send_step(s, msg).0 == s,
        s.receivers > 0 ==> send_step(s, msg).1 is Ok,
{
}

/// A receive call fails only when the queue is empty and no sender is left; it waits only when
/// the queue is empty and a sender is left, and then its waker is registered once, last.
pub proof fn law_receive_outcomes<T, W>(s: ChannelView<T, W>, id: usize, w: W)
    requires
        ids_distinct(s.wakers),
    ensures
        poll_step(s, id, w).1 matches RecvPoll::Ready(Err(_), _) <==> s.queue.len() == 0 && s.senders == 0,
        poll_step(s, id, w).1 is Pending <==> s.queue.len() == 0 && s.senders > 0,
        poll_step(s, id, w).1 is Pending ==> {
            let ws = poll_step(s, id, w).0.wakers;
            &&& ws.last() == (id, w)
            &&& forall|k: int| 0 <= k < ws.len() - 1 ==> (#[trigger] ws[k]).0 != id
        },
{
    if s.queue.len() == 0 && s.senders > 0 {
        let pw = without_id(s.wakers, id);
        if has_id(s.wakers, id) {
            let c = choose|j: int| 0 <= j < s.wakers.len() && (#[trigger] s.wakers[j]).0 == id;
            assert forall|k: int| 0 <= k < pw.len() implies (#[trigger] pw[k]).0 != id by {
                let k2 = if k < c { k } else { k + 1 };
                assert(pw[k] == s.wakers[k2]);
                if k2 < c {
                    assert(s.wakers[k2].0 != s.wakers[c].0);
                } else {
                    assert(s.wakers[c].0 != s.wakers[k2].0);
                }
            }
        }
        let ws = pw.push((id, w));
        assert forall|k: int| 0 <= k < ws.len() - 1 implies (#[trigger] ws[k]).0 != id by {
            assert(ws[k] == pw[k]);
        }
    }
}

/// A cloned sender keeps the channel open: after a clone and a drop, a receive call on an empty
/// queue waits rather than fails.
pub proof fn law_clone_keeps_open<T, W>(s: ChannelView<T, W>, id: usize, w: W)
    requires
        s.senders > 0,
        s.senders < usize::MAX,
        s.queue.len() == 0,
    ensures
        ({
            let cloned = ChannelView { senders: (s.senders + 1) as usize, ..s };
            let dropped = ChannelView { senders: (cloned.senders - 1) as usize, ..cloned };
            poll_step(dropped, id, w).1 is Pending
        }),
{
}

} // verus!
