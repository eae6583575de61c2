//! The session core: negotiation and handshake decisions, the correlation
//! of subscriptions, the dispatch of inbound messages, and the
//! caller-facing operations.
//!
//! Nothing here touches a transport. Functions that the protocol obliges
//! to send something return the message or frame to write; the caller
//! performs the write and, for inbound traffic, hands every received
//! frame to [`classify_frame`] and every decoded message to
//! [`Client::handle_message`].

use vstd::prelude::*;
use std::collections::HashMap;
use crate::codec::{self, Frame, FrameV, spec_encode};
use crate::messages::{
    ClientRoles, ErrorDetails, HelloDetails, ID, Message, MessageV, PublishOptions, Reason,
    SubscribeOptions, URI,
};
use crate::values::{Dict, List};
use crate::{Format, WampError, WampResult};

verus! {

broadcast use vstd::std_specs::hash::group_hash_axioms;

/// The capability a caller registers for a subscription: invoked with the
/// positional and keyword arguments of each delivered event.
pub trait Callback {
    fn invoke(&self, args: &List, kwargs: &Dict);
}

/// The connection lifecycle. Transitions only move forward: Connected to
/// ShuttingDown on a goodbye initiation, and any state to Disconnected
/// when the transport is gone.
#[derive(Debug, Clone, Copy, PartialEq, Eq, Structural)]
pub enum ConnectionState {
    Connected,
    ShuttingDown,
    Disconnected,
}

/// One registered subscription attempt, owned by exactly one of the two
/// tables at any instant.
pub struct Subscription<C> {
    pub callback: C,
}

/// The shared session record: the negotiated codec tag, the two
/// subscription tables, and the lifecycle state.
pub struct ConnectionInfo<C> {
    pub connection_state: ConnectionState,
    pub subscription_requests: HashMap<ID, Subscription<C>>,
    pub subscriptions: HashMap<ID, Subscription<C>>,
    pub protocol: String,
}

/// A caller's handle on one established session.
pub struct Client<C> {
    pub connection_info: ConnectionInfo<C>,
    pub max_session_id: ID,
    pub id: ID,
}

/// Format selection is a pure function of the negotiated codec tag: the
/// compact tag selects the binary format, anything else the text format.
pub open spec fn format_for_tag(tag: Seq<char>) -> Format {
    if tag == "wamp.2.msgpack"@ {
        Format::Binary
    } else {
        Format::Text
    }
}

pub fn message_format(tag: &str) -> (f: Format)
    ensures
        f == format_for_tag(tag@),
{
    if crate::codec_bin::str_eq(tag, "wamp.2.msgpack") {
        Format::Binary
    } else {
        Format::Text
    }
}

/// Choose the codec tag from the peer's subprotocol answer. The peer's
/// first choice wins; a missing or empty answer falls back to the text
/// tag, with the second component true when the caller should warn.
pub fn choose_protocol(offered: Option<Vec<String>>) -> (r: (String, bool))
    ensures
        offered is None ==> r.0@ == "wamp.2.json"@ && r.1,
        offered matches Some(v) ==> ((v@.len() == 0 ==> r.0@ == "wamp.2.json"@ && r.1) && (
        v@.len() > 0 ==> r.0@ == v@[0]@ && !r.1)),
{
    match offered {
        None => ("wamp.2.json".to_owned(), true),
        Some(v) => {
            if v.len() == 0 {
                ("wamp.2.json".to_owned(), true)
            } else {
                (v[0].clone(), false)
            }
        },
    }
}

/// The endpoint and realm a client will connect to.
pub struct Connection {
    pub realm: URI,
    pub url: String,
}

impl Connection {
    pub fn new(url: &str, realm: &str) -> (c: Connection)
        ensures
            c.realm.deep_view() == realm@,
            c.url@ == url@,
    {
        Connection { realm: URI::new(realm), url: url.to_owned() }
    }

    /// The ordered subprotocol preference list offered at connect time:
    /// the compact format first, the text format second.
    pub fn offered_protocols(&self) -> (r: Vec<String>)
        ensures
            r@.len() == 2,
            r@[0]@ == "wamp.2.msgpack"@,
            r@[1]@ == "wamp.2.json"@,
    {
        let mut v = Vec::<String>::new();
        v.push("wamp.2.msgpack".to_owned());
        v.push("wamp.2.json".to_owned());
        v
    }

    /// The first outbound frame: Hello with the realm and this client's
    /// role advertisement, in the negotiated format.
    pub fn hello_frame(&self, format: Format) -> (r: Frame)
        ensures
            r.deep_view() == spec_encode(
                MessageV::Hello(self.realm.deep_view(), (HelloDetails { roles: ClientRoles {  } })),
                format,
            ),
    {
        codec::encode(
            &Message::Hello(self.realm.clone(), HelloDetails::new(ClientRoles::new())),
            format,
        )
    }
}

/// The verdict on the first application message of a session: Welcome
/// yields the session identifier; Abort means the connection is lost;
/// anything else is out of sequence.
pub fn welcome_outcome(m: &Message) -> (r: WampResult<ID>)
    ensures
        m.deep_view() matches MessageV::Welcome(sid, d) ==> r == Ok::<ID, WampError>(sid),
        m is Abort ==> r == Err::<ID, WampError>(WampError::ConnectionLost),
        !(m is Welcome) && !(m is Abort) ==> r == Err::<ID, WampError>(
            WampError::UnexpectedMessage,
        ),
{
    match m {
        Message::Welcome(sid, _) => Ok(*sid),
        Message::Abort(_, _) => Err(WampError::ConnectionLost),
        _ => Err(WampError::UnexpectedMessage),
    }
}

/// What to do with one frame received while waiting for Welcome.
pub enum HandshakeStep {
    /// Nothing; keep reading.
    Continue,
    /// Send this frame (the pong answering a ping), then keep reading.
    Reply(Frame),
    /// The handshake failed.
    Fail(WampError),
    /// Welcome arrived: the session identifier.
    Done(ID),
}

/// Handle one frame received while waiting for the Welcome message: a
/// close frame loses the connection, a ping is answered with a pong of
/// the same payload, a pong is ignored, and a data frame is decoded and
/// judged by [`welcome_outcome`].
pub fn handle_welcome_frame(frame: Frame) -> (r: HandshakeStep)
    ensures
        frame is Close ==> (r matches HandshakeStep::Fail(e) && e == WampError::ConnectionLost),
        frame.deep_view() matches FrameV::Ping(p) ==> (r matches HandshakeStep::Reply(f)
            && f.deep_view() == FrameV::Pong(p)),
        frame is Pong ==> r is Continue,
        forall|m: MessageV, fmt: Format| #[trigger]
            spec_encode(m, fmt) == frame.deep_view() ==> ((m matches MessageV::Welcome(
                sid,
                d,
            ) ==> (r matches HandshakeStep::Done(s) && s == sid)) && (m is Abort ==> (
            r matches HandshakeStep::Fail(e) && e == WampError::ConnectionLost)) && (!(
            m is Welcome) && !(m is Abort) ==> (r matches HandshakeStep::Fail(e) && e
                == WampError::UnexpectedMessage))),
{
    match frame {
        Frame::Close => HandshakeStep::Fail(WampError::ConnectionLost),
        Frame::Ping(p) => HandshakeStep::Reply(Frame::Pong(p)),
        Frame::Pong(_) => HandshakeStep::Continue,
        data => {
            match codec::decode(&data) {
                Ok(m) => {
                    match welcome_outcome(&m) {
                        Ok(sid) => HandshakeStep::Done(sid),
                        Err(e) => HandshakeStep::Fail(e),
                    }
                },
                Err(e) => HandshakeStep::Fail(e),
            }
        },
    }
}

/// What the dispatch loop must do with one received frame.
pub enum FrameAction {
    /// Send this frame (the pong answering a ping), then keep reading.
    Reply(Frame),
    /// Nothing (a pong).
    Ignore,
    /// A close frame: answer with a close (best effort) and exit.
    Shutdown,
    /// A data frame, decoded by its own opcode; a decode failure is
    /// dropped by the caller and the loop continues.
    Data(WampResult<Message>),
}

/// Protocol-level handling of one inbound frame, before any message
/// dispatch.
pub fn classify_frame(frame: Frame) -> (r: FrameAction)
    ensures
        frame is Close ==> r is Shutdown,
        frame.deep_view() matches FrameV::Ping(p) ==> (r matches FrameAction::Reply(f)
            && f.deep_view() == FrameV::Pong(p)),
        frame is Pong ==> r is Ignore,
        (frame is Text || frame is Binary) ==> r is Data,
        forall|m: MessageV, fmt: Format| #[trigger]
            spec_encode(m, fmt) == frame.deep_view() ==> (r matches FrameAction::Data(res)
                && res matches Ok(msg) && msg.deep_view() == m),
{
    match frame {
        Frame::Close => FrameAction::Shutdown,
        Frame::Ping(p) => FrameAction::Reply(Frame::Pong(p)),
        Frame::Pong(_) => FrameAction::Ignore,
        data => FrameAction::Data(codec::decode(&data)),
    }
}

/// What one dispatched message asked for: whether the loop goes on, a
/// message to send back, and the delivery that was made to a callback.
pub struct Dispatch {
    pub proceed: bool,
    pub reply: Option<Message>,
    pub delivered: Option<(ID, List, Dict)>,
}

/// The pending-requests table of a client, as a map.
pub open spec fn pend_of<C>(c: Client<C>) -> Map<ID, Subscription<C>> {
    c.connection_info.subscription_requests@
}

/// The active-subscriptions table of a client, as a map.
pub open spec fn subs_of<C>(c: Client<C>) -> Map<ID, Subscription<C>> {
    c.connection_info.subscriptions@
}

/// The two subscription tables of `post` are those of `pre`.
pub open spec fn tables_unchanged<C>(pre: Client<C>, post: Client<C>) -> bool {
    pend_of(post) == pend_of(pre) && subs_of(post) == subs_of(pre)
}

impl<C: Callback> Client<C> {
    /// A fresh session handle bound to a router-assigned session
    /// identifier, with empty tables and the lifecycle at Connected.
    pub fn new(protocol: String, session_id: ID) -> (c: Client<C>)
        ensures
            c.connection_info.connection_state == ConnectionState::Connected,
            c.connection_info.subscription_requests@ == Map::<ID, Subscription<C>>::empty(),
            c.connection_info.subscriptions@ == Map::<ID, Subscription<C>>::empty(),
            c.connection_info.protocol == protocol,
            c.id == session_id,
            c.max_session_id == 0,
    {
        Client {
            connection_info: ConnectionInfo {
                connection_state: ConnectionState::Connected,
                subscription_requests: HashMap::new(),
                subscriptions: HashMap::new(),
                protocol,
            },
            max_session_id: 0,
            id: session_id,
        }
    }

    /// Every send of this client uses the format selected by the
    /// negotiated tag: the compact tag means the binary format, any other
    /// tag the text format.
    pub fn frame_for(&self, m: &Message) -> (f: Frame)
        ensures
            f.deep_view() == spec_encode(
                m.deep_view(),
                format_for_tag(self.connection_info.protocol@),
            ),
    {
        codec::encode(m, message_format(self.connection_info.protocol.as_str()))
    }

    /// Request identifiers count up from one and are never reused within
    /// a session's lifetime.
    fn get_next_session_id(&mut self) -> (id: ID)
        requires
            old(self).max_session_id < u64::MAX,
        ensures
            id == old(self).max_session_id + 1,
            final(self).max_session_id == id,
            final(self).connection_info == old(self).connection_info,
            final(self).id == old(self).id,
    {
        self.max_session_id = self.max_session_id + 1;
        self.max_session_id
    }

    /// Register the callback under a fresh request identifier, then build
    /// the Subscribe frame to send. The callback is registered before the
    /// frame leaves this function, so an acknowledgment can never arrive
    /// before registration.
    pub fn subscribe(&mut self, topic: URI, callback: C) -> (r: (ID, Frame))
        requires
            old(self).max_session_id < u64::MAX,
        ensures
            r.0 == old(self).max_session_id + 1,
            final(self).max_session_id == r.0,
            pend_of(*final(self)) == pend_of(*old(self)).insert(r.0, (Subscription { callback })),
            subs_of(*final(self)) == subs_of(*old(self)),
            final(self).connection_info.connection_state == old(self).connection_info.connection_state,
            final(self).connection_info.protocol == old(self).connection_info.protocol,
            final(self).id == old(self).id,
            r.1.deep_view() == spec_encode(
                MessageV::Subscribe(r.0, (SubscribeOptions {  }), topic.deep_view()),
                format_for_tag(old(self).connection_info.protocol@),
            ),
    {
        let request_id = self.get_next_session_id();
        self.connection_info.subscription_requests.insert(request_id, Subscription { callback });
        let frame = self.frame_for(
            &Message::Subscribe(request_id, SubscribeOptions::new(), topic),
        );
        (request_id, frame)
    }

    /// Build the Publish frame for a fresh request identifier. No
    /// acknowledgment is requested and the identifier is not retained.
    pub fn publish(&mut self, topic: URI, args: List, kwargs: Dict) -> (r: (ID, Frame))
        requires
            old(self).max_session_id < u64::MAX,
        ensures
            r.0 == old(self).max_session_id + 1,
            final(self).max_session_id == r.0,
            tables_unchanged(*old(self), *final(self)),
            final(self).connection_info.connection_state == old(self).connection_info.connection_state,
            final(self).connection_info.protocol == old(self).connection_info.protocol,
            final(self).id == old(self).id,
            r.1.deep_view() == spec_encode(
                MessageV::PublishKwArgs(
                    r.0,
                    (PublishOptions { acknowledge: false }),
                    topic.deep_view(),
                    args.deep_view(),
                    kwargs.deep_view(),
                ),
                format_for_tag(old(self).connection_info.protocol@),
            ),
    {
        let request_id = self.get_next_session_id();
        let frame = self.frame_for(
            &Message::PublishKwArgs(
                request_id,
                PublishOptions::new(false),
                topic,
                args,
                kwargs,
            ),
        );
        (request_id, frame)
    }

    /// Begin a clean shutdown: while Connected, hand back exactly one
    /// Goodbye frame and move to ShuttingDown; in any other state this is
    /// a no-op and nothing is sent.
    pub fn shutdown(&mut self) -> (r: Option<Frame>)
        ensures
            old(self).connection_info.connection_state == ConnectionState::Connected ==> (
            final(self).connection_info.connection_state == ConnectionState::ShuttingDown && (
            r matches Some(f) && f.deep_view() == spec_encode(
                MessageV::Goodbye((ErrorDetails {  }), Reason::SystemShutdown),
                format_for_tag(old(self).connection_info.protocol@),
            ))),
            old(self).connection_info.connection_state != ConnectionState::Connected ==> (r
                is None && final(self).connection_info.connection_state == old(self).connection_info.connection_state),
            tables_unchanged(*old(self), *final(self)),
            final(self).max_session_id == old(self).max_session_id,
            final(self).connection_info.protocol == old(self).connection_info.protocol,
            final(self).id == old(self).id,
    {
        match self.connection_info.connection_state {
            ConnectionState::Connected => {
                let frame = self.frame_for(
                    &Message::Goodbye(ErrorDetails::new(), Reason::SystemShutdown),
                );
                self.connection_info.connection_state = ConnectionState::ShuttingDown;
                Some(frame)
            },
            _ => None,
        }
    }

    /// The dispatch loop discovered that the transport is gone: the
    /// lifecycle ends at Disconnected, whatever it was.
    pub fn mark_disconnected(&mut self)
        ensures
            final(self).connection_info.connection_state == ConnectionState::Disconnected,
            tables_unchanged(*old(self), *final(self)),
            final(self).max_session_id == old(self).max_session_id,
            final(self).connection_info.protocol == old(self).connection_info.protocol,
            final(self).id == old(self).id,
    {
        self.connection_info.connection_state = ConnectionState::Disconnected;
    }

    /// Dispatch one decoded inbound message.
    ///
    /// A Subscribed acknowledgment moves the pending subscriber, if any,
    /// from the pending table to the active table under the assigned
    /// subscription identifier. An event invokes the registered callback
    /// exactly once, with the event's arguments, and is ignored without
    /// any change when no subscription is registered. A Goodbye ends the
    /// loop, answered with a reciprocal Goodbye exactly when the
    /// lifecycle is still Connected. Every other message is ignored.
    #[verifier::rlimit(60)]
    pub fn handle_message(&mut self, msg: Message) -> (d: Dispatch)
        ensures
            final(self).connection_info.connection_state == old(self).connection_info.connection_state,
            final(self).connection_info.protocol == old(self).connection_info.protocol,
            final(self).max_session_id == old(self).max_session_id,
            final(self).id == old(self).id,
            msg matches Message::Subscribed(rid, sid) ==> {
                let pend = pend_of(*old(self));
                &&& d.proceed && d.reply is None && d.delivered is None
                &&& (pend.contains_key(rid) ==> pend_of(*final(self)) == pend.remove(rid)
                    && subs_of(*final(self)) == subs_of(*old(self)).insert(sid, pend[rid]))
                &&& (!pend.contains_key(rid) ==> tables_unchanged(*old(self), *final(self)))
            },
            msg matches Message::Event(sid, pid, det) ==> {
                let subs = subs_of(*old(self));
                &&& d.proceed && d.reply is None
                &&& tables_unchanged(*old(self), *final(self))
                &&& (subs.contains_key(sid) ==> (d.delivered matches Some(t) && t.0 == sid
                    && t.1@.len() == 0 && t.2@.len() == 0))
                &&& (!subs.contains_key(sid) ==> d.delivered is None)
            },
            msg matches Message::EventArgs(sid, pid, det, args) ==> {
                let subs = subs_of(*old(self));
                &&& d.proceed && d.reply is None
                &&& tables_unchanged(*old(self), *final(self))
                &&& (subs.contains_key(sid) ==> (d.delivered matches Some(t) && t.0 == sid && t.1
                    == args && t.2@.len() == 0))
                &&& (!subs.contains_key(sid) ==> d.delivered is None)
            },
            msg matches Message::EventKwArgs(sid, pid, det, args, kwargs) ==> {
                let subs = subs_of(*old(self));
                &&& d.proceed && d.reply is None
                &&& tables_unchanged(*old(self), *final(self))
                &&& (subs.contains_key(sid) ==> (d.delivered matches Some(t) && t.0 == sid && t.1
                    == args && t.2 == kwargs))
                &&& (!subs.contains_key(sid) ==> d.delivered is None)
            },
            msg matches Message::Goodbye(det, rsn) ==> {
                let st = old(self).connection_info.connection_state;
                &&& !d.proceed && d.delivered is None
                &&& tables_unchanged(*old(self), *final(self))
                &&& (st == ConnectionState::Connected ==> (d.reply matches Some(rm)
                    && rm.deep_view() == MessageV::Goodbye(
                    (ErrorDetails {  }),
                    Reason::GoodbyeAndOut,
                )))
                &&& (st != ConnectionState::Connected ==> d.reply is None)
            },
            !(msg is Subscribed) && !(msg is Event) && !(msg is EventArgs) && !(msg
                is EventKwArgs) && !(msg is Goodbye) ==> (d.proceed && d.reply is None
                && d.delivered is None && tables_unchanged(*old(self), *final(self))),
    {
        match msg {
            Message::Subscribed(request_id, subscription_id) => {
                let ghost pend0 = self.connection_info.subscription_requests@;
                match self.connection_info.subscription_requests.remove(&request_id) {
                    Some(subscription) => {
                        self.connection_info.subscriptions.insert(subscription_id, subscription);
                    },
                    None => {
                        // An acknowledgment for a request this client never
                        // made: ignored, not fatal.
                        proof {
                            assert(pend0.remove(request_id) =~= pend0);
                        }
                    },
                }
                Dispatch { proceed: true, reply: None, delivered: None }
            },
            Message::Event(subscription_id, _, _) => {
                let args: List = Vec::new();
                let kwargs: Dict = Vec::new();
                match self.connection_info.subscriptions.get(&subscription_id) {
                    Some(subscription) => {
                        subscription.callback.invoke(&args, &kwargs);
                        Dispatch {
                            proceed: true,
                            reply: None,
                            delivered: Some((subscription_id, args, kwargs)),
                        }
                    },
                    None => Dispatch { proceed: true, reply: None, delivered: None },
                }
            },
            Message::EventArgs(subscription_id, _, _, args) => {
                let kwargs: Dict = Vec::new();
                match self.connection_info.subscriptions.get(&subscription_id) {
                    Some(subscription) => {
                        subscription.callback.invoke(&args, &kwargs);
                        Dispatch {
                            proceed: true,
                            reply: None,
                            delivered: Some((subscription_id, args, kwargs)),
                        }
                    },
                    None => Dispatch { proceed: true, reply: None, delivered: None },
                }
            },
            Message::EventKwArgs(subscription_id, _, _, args, kwargs) => {
                match self.connection_info.subscriptions.get(&subscription_id) {
                    Some(subscription) => {
                        subscription.callback.invoke(&args, &kwargs);
                        Dispatch {
                            proceed: true,
                            reply: None,
                            delivered: Some((subscription_id, args, kwargs)),
                        }
                    },
                    None => Dispatch { proceed: true, reply: None, delivered: None },
                }
            },
            Message::Goodbye(_, _) => {
                match self.connection_info.connection_state {
                    ConnectionState::Connected => Dispatch {
                        proceed: false,
                        reply: Some(Message::Goodbye(ErrorDetails::new(), Reason::GoodbyeAndOut)),
                        delivered: None,
                    },
                    ConnectionState::ShuttingDown => Dispatch {
                        proceed: false,
                        reply: None,
                        delivered: None,
                    },
                    ConnectionState::Disconnected => Dispatch {
                        proceed: false,
                        reply: None,
                        delivered: None,
                    },
                }
            },
            _ => Dispatch { proceed: true, reply: None, delivered: None },
        }
    }
}

/// Law: a subscription acknowledged and then fired delivers the event's
/// arguments to that subscription exactly once, and an event that arrives
/// before the acknowledgment, or for an identifier never acknowledged,
/// delivers nothing and changes nothing. The first dispatch is the
/// too-early event, the second the acknowledgment, the third the event.
pub fn subscribe_ack_event<C: Callback>(
    c: &mut Client<C>,
    topic: URI,
    callback: C,
    sub_id: ID,
    pub_id: ID,
    args: List,
) -> (r: (Dispatch, Dispatch, Dispatch))
    requires
        old(c).max_session_id < u64::MAX,
        !old(c).connection_info.subscriptions@.contains_key(sub_id),
    ensures
        r.0.delivered is None,
        r.2.delivered matches Some(t) && t.0 == sub_id && t.1 == args && t.2@.len() == 0,
{
    let (request_id, _frame) = c.subscribe(topic, callback);
    let early = c.handle_message(Message::EventArgs(sub_id, pub_id, Vec::new(), Vec::new()));
    let ack = c.handle_message(Message::Subscribed(request_id, sub_id));
    let fired = c.handle_message(Message::EventArgs(sub_id, pub_id, Vec::new(), args));
    (early, ack, fired)
}

/// Law: request identifiers issued by one client across subscribe and
/// publish calls are strictly increasing, with no repeats.
pub fn request_ids_increase<C: Callback>(
    c: &mut Client<C>,
    topic: URI,
    callback: C,
    topic2: URI,
    args: List,
    kwargs: Dict,
) -> (r: (ID, ID))
    requires
        old(c).max_session_id + 2 <= u64::MAX,
    ensures
        r.0 < r.1,
{
    let (id1, _f1) = c.subscribe(topic, callback);
    let (id2, _f2) = c.publish(topic2, args, kwargs);
    (id1, id2)
}

/// Law: two shutdowns in a row while Connected produce exactly one
/// Goodbye frame; the second call is a no-op and the lifecycle moved
/// Connected to ShuttingDown exactly once.
pub fn shutdown_twice<C: Callback>(c: &mut Client<C>) -> (r: (Option<Frame>, Option<Frame>))
    requires
        old(c).connection_info.connection_state == ConnectionState::Connected,
    ensures
        r.0 is Some,
        r.1 is None,
        final(c).connection_info.connection_state == ConnectionState::ShuttingDown,
{
    let first = c.shutdown();
    let second = c.shutdown();
    (first, second)
}

} // verus!
