//! Messages between the network behaviour and the per-connection handler
//! that carries unary framed RPCs, and the handler's bookkeeping: the
//! events it owes the behaviour, the requests waiting for a stream, and,
//! per inbound channel, where its answer goes.

use std::collections::{HashMap, VecDeque};

use vstd::prelude::*;

use crate::protocol::messages::{RaftMessage, RaftMessageView};
use crate::text::{decimal_digits, decimal_string};

verus! {

broadcast use vstd::std_specs::hash::group_hash_axioms;

/// What the behaviour asks a connection handler to do.
#[derive(Debug)]
pub enum FromBehaviour {
    /// Open a stream, send the request and read one response.
    SendRequest { correlation_id: u64, msg: RaftMessage },
    /// Answer the inbound request that arrived on `channel_id`.
    SendResponse { channel_id: u64, correlation_id: u64, msg: RaftMessage },
}

/// What a connection handler reports to the behaviour.
#[derive(Debug)]
pub enum ToBehaviour {
    /// A peer sent a request; answer it on `channel_id`.
    Request { correlation_id: u64, msg: RaftMessage, channel_id: u64 },
    /// A peer answered one of our requests.
    Response { correlation_id: u64, msg: RaftMessage },
    /// A stream failed; `correlation_id` names our request when it was one.
    Failure { correlation_id: Option<u64>, error: String },
}

/// An outbound request waiting for its stream.
#[derive(Debug, Clone)]
pub struct OutboundInfo {
    correlation_id: u64,
    msg: RaftMessage,
}

impl OutboundInfo {
    pub fn new(correlation_id: u64, msg: RaftMessage) -> (info: Self)
        ensures
            info.correlation_id() == correlation_id,
            info.msg() == msg,
    {
        OutboundInfo { correlation_id, msg }
    }

    pub closed spec fn correlation_id(&self) -> u64 {
        self.correlation_id
    }

    pub closed spec fn msg(&self) -> RaftMessage {
        self.msg
    }

    /// The request's correlation id and message.
    pub fn into_parts(self) -> (parts: (u64, RaftMessage))
        ensures
            parts == (self.correlation_id(), self.msg()),
    {
        (self.correlation_id, self.msg)
    }
}

/// Hands out channel ids one after another, wrapping around at the end of
/// the range.
pub fn next_channel_id(current: u64) -> (next: u64)
    ensures
        next == (if current == u64::MAX {
            0
        } else {
            (current + 1) as u64
        }),
{
    current.wrapping_add(1)
}

/// The value of a [`ToBehaviour`].
pub enum ToBehaviourView {
    Request { correlation_id: u64, msg: RaftMessageView, channel_id: u64 },
    Response { correlation_id: u64, msg: RaftMessageView },
    Failure { correlation_id: Option<u64>, error: Seq<char> },
}

impl View for ToBehaviour {
    type V = ToBehaviourView;

    open spec fn view(&self) -> ToBehaviourView {
        match self {
            ToBehaviour::Request { correlation_id, msg, channel_id } => ToBehaviourView::Request {
                correlation_id: *correlation_id,
                msg: msg@,
                channel_id: *channel_id,
            },
            ToBehaviour::Response { correlation_id, msg } => ToBehaviourView::Response {
                correlation_id: *correlation_id,
                msg: msg@,
            },
            ToBehaviour::Failure { correlation_id, error } => ToBehaviourView::Failure {
                correlation_id: *correlation_id,
                error: error@,
            },
        }
    }
}

/// The values of a sequence of handler events.
pub open spec fn events_view(v: Seq<ToBehaviour>) -> Seq<ToBehaviourView> {
    v.map_values(|e: ToBehaviour| e@)
}

/// The values of the requests waiting for a stream.
pub open spec fn outbound_view(v: Seq<OutboundInfo>) -> Seq<(u64, RaftMessageView)> {
    v.map_values(|o: OutboundInfo| (o.correlation_id(), o.msg()@))
}

/// Why an outbound stream could not be set up.
#[derive(Debug)]
pub enum UpgradeFailure {
    Timeout,
    Apply,
    NegotiationFailed,
    /// An I/O error, with its text.
    Io(String),
}

pub open spec fn upgrade_failure_text(f: UpgradeFailure) -> Seq<char> {
    match f {
        UpgradeFailure::Timeout => "outbound upgrade timeout"@,
        UpgradeFailure::Apply => "outbound upgrade apply error"@,
        UpgradeFailure::NegotiationFailed => "outbound protocol negotiation failed"@,
        UpgradeFailure::Io(e) => "outbound upgrade io: "@ + e@,
    }
}

/// The text of the failure reported when an answer names a channel the
/// handler does not know.
pub open spec fn unknown_channel_text(channel_id: u64) -> Seq<char> {
    "unknown inbound channel_id "@ + decimal_digits(channel_id as nat)
}

/// The bookkeeping of one connection handler: the next inbound channel id,
/// the events owed to the behaviour, the requests waiting for a stream, and
/// for each inbound channel the `T` its answer is handed to.
pub struct HandlerBook<T> {
    next_channel: u64,
    events: VecDeque<ToBehaviour>,
    outbound: VecDeque<OutboundInfo>,
    replies: HashMap<u64, T>,
}

impl<T> HandlerBook<T> {
    pub closed spec fn next_channel(&self) -> u64 {
        self.next_channel
    }

    /// The events owed to the behaviour, oldest first.
    pub closed spec fn events(&self) -> Seq<ToBehaviourView> {
        events_view(self.events@)
    }

    /// The requests waiting for a stream, oldest first.
    pub closed spec fn outbound(&self) -> Seq<(u64, RaftMessageView)> {
        outbound_view(self.outbound@)
    }

    /// Where the answer of each open inbound channel goes.
    pub closed spec fn replies(&self) -> Map<u64, T> {
        self.replies@
    }

    /// The open channels are finitely many.
    pub closed spec fn wf(&self) -> bool {
        self.replies@.dom().finite()
    }

    /// Nothing owed, nothing waiting, no open channel; channel ids start at 1.
    pub fn new() -> (b: Self)
        ensures
            b.wf(),
            b.next_channel() == 1,
            b.events() == Seq::<ToBehaviourView>::empty(),
            b.outbound() == Seq::<(u64, RaftMessageView)>::empty(),
            b.replies() == Map::<u64, T>::empty(),
    {
        let b = HandlerBook { next_channel: 1, events: VecDeque::new(), outbound: VecDeque::new(), replies: HashMap::new() };
        assert(b.events() =~= Seq::<ToBehaviourView>::empty());
        assert(b.outbound() =~= Seq::<(u64, RaftMessageView)>::empty());
        assert(b.replies() =~= Map::<u64, T>::empty());
        b
    }

    /// Hands out the next inbound channel id.
    pub fn alloc_channel_id(&mut self) -> (id: u64)
        ensures
            id == old(self).next_channel(),
            final(self).next_channel() == next_channel_id_spec(id),
            final(self).events() == old(self).events(),
            final(self).outbound() == old(self).outbound(),
            final(self).replies() == old(self).replies(),
            final(self).wf() == old(self).wf(),
    {
        let id = self.next_channel;
        self.next_channel = next_channel_id(id);
        id
    }

    fn owe(&mut self, e: ToBehaviour)
        ensures
            final(self).events() == old(self).events().push(e@),
            final(self).next_channel() == old(self).next_channel(),
            final(self).outbound() == old(self).outbound(),
            final(self).replies() == old(self).replies(),
            final(self).wf() == old(self).wf(),
    {
        let ghost before = self.events@;
        self.events.push_back(e);
        assert(events_view(self.events@) =~= events_view(before).push(e@));
    }

    /// The behaviour asks for request `correlation_id` to be sent: it waits
    /// for a stream.
    pub fn request(&mut self, correlation_id: u64, msg: RaftMessage)
        ensures
            final(self).outbound() == old(self).outbound().push((correlation_id, msg@)),
            final(self).events() == old(self).events(),
            final(self).next_channel() == old(self).next_channel(),
            final(self).replies() == old(self).replies(),
            final(self).wf() == old(self).wf(),
    {
        let ghost before = self.outbound@;
        let ghost m = msg@;
        let info = OutboundInfo::new(correlation_id, msg);
        self.outbound.push_back(info);
        assert(outbound_view(self.outbound@) =~= outbound_view(before).push((correlation_id, m)));
    }

    /// The behaviour answers the inbound request on `channel_id`. When the
    /// channel is open it closes, and its `T` is handed back with the answer
    /// to send; otherwise a failure naming the unknown channel is owed.
    pub fn respond(&mut self, channel_id: u64, correlation_id: u64, msg: RaftMessage) -> (r: Option<(T, (u64, RaftMessage))>)
        requires
            old(self).wf(),
        ensures
            final(self).wf(),
            final(self).next_channel() == old(self).next_channel(),
            final(self).outbound() == old(self).outbound(),
            old(self).replies().contains_key(channel_id) ==> (r matches Some((t, (c, m))) && t == old(self).replies()[channel_id]
                && c == correlation_id && m@ == msg@ && final(self).replies() == old(self).replies().remove(channel_id)
                && final(self).events() == old(self).events()),
            !old(self).replies().contains_key(channel_id) ==> r is None && final(self).replies() == old(self).replies()
                && final(self).events() == old(self).events().push(
                ToBehaviourView::Failure {
                    correlation_id: Some(correlation_id),
                    error: unknown_channel_text(channel_id),
                },
            ),
    {
        match self.replies.remove(&channel_id) {
            Some(t) => {
                return Some((t, (correlation_id, msg)));
            },
            None => {},
        }
        let text = String::from_str("unknown inbound channel_id ").concat(decimal_string(channel_id).as_str());
        self.owe(ToBehaviour::Failure { correlation_id: Some(correlation_id), error: text });
        None
    }

    /// An outbound stream for `info` could not be set up.
    pub fn upgrade_failed(&mut self, info: OutboundInfo, failure: UpgradeFailure)
        ensures
            final(self).events() == old(self).events().push(
                ToBehaviourView::Failure {
                    correlation_id: Some(info.correlation_id()),
                    error: upgrade_failure_text(failure),
                },
            ),
            final(self).next_channel() == old(self).next_channel(),
            final(self).outbound() == old(self).outbound(),
            final(self).replies() == old(self).replies(),
            final(self).wf() == old(self).wf(),
    {
        let error = match failure {
            UpgradeFailure::Timeout => String::from_str("outbound upgrade timeout"),
            UpgradeFailure::Apply => String::from_str("outbound upgrade apply error"),
            UpgradeFailure::NegotiationFailed => String::from_str("outbound protocol negotiation failed"),
            UpgradeFailure::Io(e) => String::from_str("outbound upgrade io: ").concat(e.as_str()),
        };
        let (correlation_id, _) = info.into_parts();
        self.owe(ToBehaviour::Failure { correlation_id: Some(correlation_id), error });
    }

    /// Our request `correlation_id` was answered with `msg`.
    pub fn outbound_done(&mut self, correlation_id: u64, msg: RaftMessage)
        ensures
            final(self).events() == old(self).events().push(ToBehaviourView::Response { correlation_id, msg: msg@ }),
            final(self).next_channel() == old(self).next_channel(),
            final(self).outbound() == old(self).outbound(),
            final(self).replies() == old(self).replies(),
            final(self).wf() == old(self).wf(),
    {
        self.owe(ToBehaviour::Response { correlation_id, msg });
    }

    /// The request `msg` arrived on inbound channel `channel_id`; its answer
    /// will go to `reply`. An earlier `T` for the same channel is dropped.
    pub fn inbound_read(&mut self, channel_id: u64, reply: T, correlation_id: u64, msg: RaftMessage)
        requires
            old(self).wf(),
        ensures
            final(self).wf(),
            final(self).replies() == old(self).replies().insert(channel_id, reply),
            final(self).events() == old(self).events().push(
                ToBehaviourView::Request { correlation_id, msg: msg@, channel_id },
            ),
            final(self).next_channel() == old(self).next_channel(),
            final(self).outbound() == old(self).outbound(),
    {
        self.replies.insert(channel_id, reply);
        self.owe(ToBehaviour::Request { correlation_id, msg, channel_id });
    }

    /// The answer on `channel_id` was written; the channel closes.
    pub fn inbound_written(&mut self, channel_id: u64)
        requires
            old(self).wf(),
        ensures
            final(self).wf(),
            final(self).replies() == old(self).replies().remove(channel_id),
            final(self).events() == old(self).events(),
            final(self).next_channel() == old(self).next_channel(),
            final(self).outbound() == old(self).outbound(),
    {
        self.drop_channel(channel_id);
    }

    fn drop_channel(&mut self, channel_id: u64)
        requires
            old(self).wf(),
        ensures
            final(self).wf(),
            final(self).replies() == old(self).replies().remove(channel_id),
            final(self).events() == old(self).events(),
            final(self).next_channel() == old(self).next_channel(),
            final(self).outbound() == old(self).outbound(),
    {
        let _ = self.replies.remove(&channel_id);
    }

    /// A stream failed with `error`; `correlation_id` names our request
    /// when it was one.
    pub fn failed(&mut self, correlation_id: Option<u64>, error: String)
        ensures
            final(self).events() == old(self).events().push(ToBehaviourView::Failure { correlation_id, error: error@ }),
            final(self).next_channel() == old(self).next_channel(),
            final(self).outbound() == old(self).outbound(),
            final(self).replies() == old(self).replies(),
            final(self).wf() == old(self).wf(),
    {
        self.owe(ToBehaviour::Failure { correlation_id, error });
    }

    /// The oldest event owed to the behaviour, if any.
    pub fn next_event(&mut self) -> (e: Option<ToBehaviour>)
        ensures
            old(self).events().len() == 0 ==> e is None && final(self).events() == old(self).events(),
            old(self).events().len() > 0 ==> (e matches Some(x) && x@ == old(self).events()[0]
                && final(self).events() == old(self).events().drop_first()),
            final(self).next_channel() == old(self).next_channel(),
            final(self).outbound() == old(self).outbound(),
            final(self).replies() == old(self).replies(),
            final(self).wf() == old(self).wf(),
    {
        let ghost before = self.events@;
        let e = self.events.pop_front();
        proof {
            if before.len() > 0 {
                assert(events_view(self.events@) =~= events_view(before).drop_first());
            }
        }
        e
    }

    /// The oldest request waiting for a stream, if any.
    pub fn next_outbound(&mut self) -> (o: Option<OutboundInfo>)
        ensures
            old(self).outbound().len() == 0 ==> o is None && final(self).outbound() == old(self).outbound(),
            old(self).outbound().len() > 0 ==> (o matches Some(x) && (x.correlation_id(), x.msg()@) == old(
                self,
            ).outbound()[0] && final(self).outbound() == old(self).outbound().drop_first()),
            final(self).next_channel() == old(self).next_channel(),
            final(self).events() == old(self).events(),
            final(self).replies() == old(self).replies(),
            final(self).wf() == old(self).wf(),
    {
        let ghost before = self.outbound@;
        let o = self.outbound.pop_front();
        proof {
            if before.len() > 0 {
                assert(outbound_view(self.outbound@) =~= outbound_view(before).drop_first());
            }
        }
        o
    }
}

/// The channel id after `id`, wrapping around.
pub open spec fn next_channel_id_spec(id: u64) -> u64 {
    if id == u64::MAX {
        0
    } else {
        (id + 1) as u64
    }
}

} // verus!
