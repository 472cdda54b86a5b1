//! The bounded queues between the application worker and the UI thread:
//! decoded transactions flow in, serialized events flow out. Both directions
//! are bounded by count and bytes; event overflow ends the session, and a
//! closed session refuses new work while its accepted events stay readable.
use std::collections::VecDeque;
use vstd::prelude::*;
use vstd::string::StringSliceAdditionalSpecFns;
use crate::text::utf8_of;

verus! {

/// The most bytes either direction holds, and the largest transaction.
pub const MAX_BYTES: usize = 4194304;
/// The most transactions waiting for the UI thread.
pub const MAX_TRANSACTIONS: usize = 256;
/// The most events waiting for the worker.
pub const MAX_EVENTS: usize = 4096;

/// Why a session call was refused.
#[derive(Clone, Debug, PartialEq, Eq)]
pub enum SessionError {
    /// A transaction exceeds `MAX_BYTES` on its own.
    TooLarge,
    /// The transaction queue holds `MAX_TRANSACTIONS` or too many bytes.
    Full,
    /// The session ended for this reason.
    Closed(String),
    /// A client is already attached, or the session ended.
    AttachedOrClosed,
    /// A receiver is already waiting.
    ReceiverBusy,
}

impl SessionError {
    /// The human-readable message of this error.
    pub fn message(&self) -> (r: String)
        ensures
            r@ == match *self {
                SessionError::TooLarge => "Native transaction exceeds byte limit"@,
                SessionError::Full => "Native command queue is full"@,
                SessionError::Closed(reason) => reason@,
                SessionError::AttachedOrClosed => "Native session is attached or closed"@,
                SessionError::ReceiverBusy => "Only one native receiver is allowed"@,
            },
    {
        match self {
            SessionError::TooLarge => "Native transaction exceeds byte limit".to_string(),
            SessionError::Full => "Native command queue is full".to_string(),
            SessionError::Closed(reason) => reason.clone(),
            SessionError::AttachedOrClosed => "Native session is attached or closed".to_string(),
            SessionError::ReceiverBusy => "Only one native receiver is allowed".to_string(),
        }
    }
}

/// What an emitted event caused.
#[derive(Clone, Copy, Debug, PartialEq, Eq, Structural)]
pub enum Emitted {
    /// Queued; a waiting receiver should wake.
    Queued,
    /// The queue overflowed and the session closed.
    Overflow,
    /// The session had already closed; the event is dropped.
    Dropped,
}

/// The sum of the byte counts recorded with queued transactions.
pub open spec fn command_total<T>(q: Seq<(T, usize)>) -> int
    decreases q.len(),
{
    if q.len() == 0 {
        0
    } else {
        command_total(q.drop_last()) + q.last().1
    }
}

/// The sum of the UTF-8 lengths of queued messages.
pub open spec fn message_total(q: Seq<Seq<char>>) -> int
    decreases q.len(),
{
    if q.len() == 0 {
        0
    } else {
        message_total(q.drop_last()) + utf8_of(q.last()).len()
    }
}

proof fn lemma_command_total_pop_front<T>(q: Seq<(T, usize)>)
    requires
        q.len() > 0,
    ensures
        command_total(q) == q[0].1 + command_total(q.drop_first()),
    decreases q.len(),
{
    if q.len() > 1 {
        lemma_command_total_pop_front(q.drop_last());
        assert(q.drop_last().drop_first() =~= q.drop_first().drop_last());
    } else {
        assert(q.drop_last() =~= Seq::<(T, usize)>::empty());
        assert(q.drop_first() =~= Seq::<(T, usize)>::empty());
    }
}

proof fn lemma_totals_nonneg<T>(q: Seq<(T, usize)>, m: Seq<Seq<char>>)
    ensures
        command_total(q) >= 0,
        message_total(m) >= 0,
    decreases q.len() + m.len(),
{
    if q.len() > 0 {
        lemma_totals_nonneg(q.drop_last(), m);
    } else if m.len() > 0 {
        lemma_totals_nonneg(q, m.drop_last());
    }
}

/// The queues of one session, as values.
pub struct QueuesView<T> {
    pub commands: Seq<(T, usize)>,
    pub command_bytes: int,
    pub messages: Seq<Seq<char>>,
    pub message_bytes: int,
    pub reason: Option<Seq<char>>,
    pub attached: bool,
    pub receiving: bool,
}

/// The queues after accepting a transaction of `len` bytes.
pub open spec fn with_command<T>(o: QueuesView<T>, t: T, len: usize) -> QueuesView<T> {
    QueuesView { commands: o.commands.push((t, len)), command_bytes: o.command_bytes + len, ..o }
}

/// The queues after the oldest transaction leaves.
pub open spec fn without_oldest<T>(o: QueuesView<T>) -> QueuesView<T> {
    QueuesView {
        commands: o.commands.drop_first(),
        command_bytes: o.command_bytes - o.commands[0].1,
        ..o
    }
}

/// The transaction queue is first in, first out: behind a waiting
/// transaction, a new one does not change what leaves next, and accepting
/// then taking equals taking then accepting; alone, it leaves next.
pub proof fn lemma_first_in_first_out<T>(o: QueuesView<T>, t: T, len: usize)
    ensures
        o.commands.len() > 0 ==> with_command(o, t, len).commands[0] == o.commands[0]
            && without_oldest(with_command(o, t, len)) == with_command(without_oldest(o), t, len),
        o.commands.len() == 0 ==> with_command(o, t, len).commands[0] == (t, len)
            && without_oldest(with_command(o, t, len)).commands.len() == 0,
{
    if o.commands.len() > 0 {
        assert(o.commands.push((t, len)).drop_first() =~= o.commands.drop_first().push((t, len)));
    }
}

/// One session's transaction and event queues.
pub struct Queues<T> {
    commands: VecDeque<(T, usize)>,
    command_bytes: usize,
    messages: VecDeque<String>,
    message_bytes: usize,
    reason: Option<String>,
    attached: bool,
    receiving: bool,
}

impl<T> Queues<T> {
    /// The queues as values.
    pub closed spec fn view_queues(&self) -> QueuesView<T> {
        QueuesView {
            commands: self.commands@,
            command_bytes: self.command_bytes as int,
            messages: self.messages@.map_values(|m: String| m@),
            message_bytes: self.message_bytes as int,
            reason: match self.reason {
                Some(r) => Some(r@),
                None => None,
            },
            attached: self.attached,
            receiving: self.receiving,
        }
    }

    /// The byte counters match the queues, and the bounds hold.
    pub open spec fn wf(&self) -> bool {
        let v = self.view_queues();
        &&& v.command_bytes == command_total(v.commands)
        &&& v.message_bytes == message_total(v.messages)
        &&& v.commands.len() <= MAX_TRANSACTIONS
        &&& v.command_bytes <= MAX_BYTES
        &&& v.messages.len() <= MAX_EVENTS
        &&& v.message_bytes <= MAX_BYTES
    }

    /// Empty, open, unattached queues.
    pub fn new() -> (r: Self)
        ensures
            r.wf(),
            r.view_queues().commands.len() == 0,
            r.view_queues().messages.len() == 0,
            r.view_queues().reason is None,
            !r.view_queues().attached,
            !r.view_queues().receiving,
    {
        let r = Queues {
            commands: VecDeque::new(),
            command_bytes: 0,
            messages: VecDeque::new(),
            message_bytes: 0,
            reason: None,
            attached: false,
            receiving: false,
        };
        assert(r.view_queues().messages =~= Seq::<Seq<char>>::empty());
        r
    }

    /// The session has ended.
    pub fn closed(&self) -> (b: bool)
        ensures
            b == self.view_queues().reason is Some,
    {
        self.reason.is_some()
    }

    /// Ends the session with `reason` unless it already ended; the first
    /// reason stays.
    pub fn close(&mut self, reason: String)
        requires
            old(self).wf(),
        ensures
            final(self).wf(),
            final(self).view_queues() == (QueuesView {
                reason: Some(
                    match old(self).view_queues().reason {
                        Some(r) => r,
                        None => reason@,
                    },
                ),
                ..old(self).view_queues()
            }),
    {
        if self.reason.is_none() {
            self.reason = Some(reason);
        }
    }

    /// Attaches the one client. Refused when one is attached or the session ended.
    pub fn attach(&mut self) -> (r: Result<(), SessionError>)
        requires
            old(self).wf(),
        ensures
            final(self).wf(),
            (old(self).view_queues().attached || old(self).view_queues().reason is Some) ==> (r
                == Err::<(), SessionError>(SessionError::AttachedOrClosed) && final(self).view_queues()
                == old(self).view_queues()),
            !(old(self).view_queues().attached || old(self).view_queues().reason is Some) ==> (r
                is Ok && final(self).view_queues() == (QueuesView {
                attached: true,
                ..old(self).view_queues()
            })),
    {
        if self.attached || self.reason.is_some() {
            return Err(SessionError::AttachedOrClosed);
        }
        self.attached = true;
        Ok(())
    }

    /// Refuses a transaction larger than the byte limit before it is decoded.
    pub fn check_size(len: usize) -> (r: Result<(), SessionError>)
        ensures
            r is Ok <==> len <= MAX_BYTES,
            r is Err ==> r == Err::<(), SessionError>(SessionError::TooLarge),
    {
        if len > MAX_BYTES {
            Err(SessionError::TooLarge)
        } else {
            Ok(())
        }
    }

    /// Queues a decoded transaction of `len` encoded bytes for the UI thread.
    pub fn enqueue(&mut self, transaction: T, len: usize) -> (r: Result<(), SessionError>)
        requires
            old(self).wf(),
        ensures
            final(self).wf(),
            ({
                let o = old(self).view_queues();
                match o.reason {
                    Some(reason) => (r matches Err(SessionError::Closed(m)) && m@ == reason)
                        && final(self).view_queues() == o,
                    None => if o.commands.len() >= MAX_TRANSACTIONS || o.command_bytes + len
                        > MAX_BYTES {
                        r == Err::<(), SessionError>(SessionError::Full) && final(self).view_queues() == o
                    } else {
                        r is Ok && final(self).view_queues() == with_command(o, transaction, len)
                    },
                }
            }),
    {
        if let Some(reason) = &self.reason {
            return Err(SessionError::Closed(reason.clone()));
        }
        if self.commands.len() >= MAX_TRANSACTIONS || len > MAX_BYTES - self.command_bytes {
            return Err(SessionError::Full);
        }
        let ghost before = self.commands@;
        self.command_bytes = self.command_bytes + len;
        self.commands.push_back((transaction, len));
        assert(self.commands@.drop_last() =~= before);
        Ok(())
    }

    /// The oldest queued transaction, in admission order.
    pub fn pop(&mut self) -> (r: Option<T>)
        requires
            old(self).wf(),
        ensures
            final(self).wf(),
            ({
                let o = old(self).view_queues();
                if o.commands.len() == 0 {
                    r is None && final(self).view_queues() == o
                } else {
                    r == Some(o.commands[0].0) && final(self).view_queues() == without_oldest(o)
                }
            }),
    {
        proof {
            if self.commands@.len() > 0 {
                lemma_command_total_pop_front(self.commands@);
                lemma_totals_nonneg(self.commands@.drop_first(), Seq::<Seq<char>>::empty());
            }
        }
        match self.commands.pop_front() {
            Some((transaction, bytes)) => {
                self.command_bytes = self.command_bytes - bytes;
                Some(transaction)
            },
            None => None,
        }
    }

    /// Queues a serialized event for the worker. Overflow by count or bytes
    /// closes the session; a closed session drops the event.
    pub fn emit(&mut self, message: String) -> (r: Emitted)
        requires
            old(self).wf(),
        ensures
            final(self).wf(),
            ({
                let o = old(self).view_queues();
                let len = utf8_of(message@).len();
                match o.reason {
                    Some(_) => r == Emitted::Dropped && final(self).view_queues() == o,
                    None => if o.messages.len() >= MAX_EVENTS || o.message_bytes + len > MAX_BYTES {
                        r == Emitted::Overflow && final(self).view_queues() == (QueuesView {
                            reason: Some("Native event queue overflow"@),
                            ..o
                        })
                    } else {
                        r == Emitted::Queued && final(self).view_queues() == (QueuesView {
                            messages: o.messages.push(message@),
                            message_bytes: o.message_bytes + len,
                            ..o
                        })
                    },
                }
            }),
    {
        if self.reason.is_some() {
            return Emitted::Dropped;
        }
        let len = message.as_str().as_bytes().len();
        if self.messages.len() >= MAX_EVENTS || len > MAX_BYTES - self.message_bytes {
            self.close("Native event queue overflow".to_string());
            proof {
                reveal_strlit("Native event queue overflow");
            }
            return Emitted::Overflow;
        }
        let ghost before = self.messages@;
        let ghost mv = message@;
        self.message_bytes = self.message_bytes + len;
        self.messages.push_back(message);
        assert(self.messages@.map_values(|m: String| m@) =~= before.map_values(|m: String| m@).push(
            mv,
        ));
        assert(self.messages@.map_values(|m: String| m@).drop_last() =~= before.map_values(
            |m: String| m@,
        ));
        Emitted::Queued
    }

    /// Claims the one receiver slot.
    pub fn begin_receive(&mut self) -> (r: Result<(), SessionError>)
        requires
            old(self).wf(),
        ensures
            final(self).wf(),
            old(self).view_queues().receiving ==> r == Err::<(), SessionError>(
                SessionError::ReceiverBusy,
            ) && final(self).view_queues() == old(self).view_queues(),
            !old(self).view_queues().receiving ==> r is Ok && final(self).view_queues() == (
            QueuesView { receiving: true, ..old(self).view_queues() }),
    {
        if self.receiving {
            return Err(SessionError::ReceiverBusy);
        }
        self.receiving = true;
        Ok(())
    }

    /// What a waiting receiver gets now: nothing while the queue is empty and
    /// the session open; otherwise every queued event in order, or the close
    /// reason once no event is left. Either answer releases the receiver.
    pub fn take_messages(&mut self) -> (r: Option<Result<Vec<String>, String>>)
        requires
            old(self).wf(),
        ensures
            final(self).wf(),
            ({
                let o = old(self).view_queues();
                if o.messages.len() == 0 && o.reason is None {
                    r is None && final(self).view_queues() == o
                } else if o.messages.len() == 0 {
                    (r matches Some(Err(m)) && Some(m@) == o.reason) && final(self).view_queues()
                        == (QueuesView { receiving: false, ..o })
                } else {
                    (r matches Some(Ok(ms)) && ms@.map_values(|m: String| m@) == o.messages)
                        && final(self).view_queues() == (QueuesView {
                        receiving: false,
                        messages: Seq::empty(),
                        message_bytes: 0,
                        ..o
                    })
                }
            }),
    {
        if self.messages.len() == 0 && self.reason.is_none() {
            return None;
        }
        self.receiving = false;
        if self.messages.len() == 0 {
            let reason = match &self.reason {
                Some(r) => r.clone(),
                None => String::new(),
            };
            return Some(Err(reason));
        }
        let ghost all = self.messages@.map_values(|m: String| m@);
        let mut out: Vec<String> = Vec::new();
        while self.messages.len() > 0
            invariant
                out@.map_values(|m: String| m@) + self.messages@.map_values(|m: String| m@) == all,
                self.commands@ == old(self).commands@,
                self.command_bytes == old(self).command_bytes,
                self.message_bytes == old(self).message_bytes,
                self.reason == old(self).reason,
                self.attached == old(self).attached,
                !self.receiving,
                old(self).wf(),
            decreases self.messages@.len(),
        {
            let ghost rest = self.messages@;
            let m = self.messages.pop_front().unwrap();
            let ghost prev = out@;
            out.push(m);
            assert(out@.map_values(|m: String| m@) =~= prev.map_values(|m: String| m@).push(m@));
            assert(rest.map_values(|m: String| m@) =~= seq![m@] + self.messages@.map_values(
                |m: String| m@,
            ));
            assert(prev.map_values(|m: String| m@).push(m@) + self.messages@.map_values(
                |m: String| m@,
            ) =~= prev.map_values(|m: String| m@) + rest.map_values(|m: String| m@));
        }
        self.message_bytes = 0;
        assert(out@.map_values(|m: String| m@) =~= all);
        assert(self.messages@.map_values(|m: String| m@) =~= Seq::<Seq<char>>::empty());
        Some(Ok(out))
    }
}

} // verus!
