//! The closed set of protocol messages and the value types they carry.

use vstd::prelude::*;
use crate::values::{Dict, DictV, List, ListV};

verus! {

/// An opaque symbolic string naming a realm or a topic. Equality is
/// structural: two URIs are the same exactly when their texts are.
#[derive(Debug, PartialEq, Eq)]
pub struct URI {
    pub uri: String,
}

impl Clone for URI {
    fn clone(&self) -> (r: Self)
        ensures
            r.deep_view() == self.deep_view(),
    {
        URI { uri: self.uri.clone() }
    }
}

impl DeepView for URI {
    type V = Seq<char>;

    open spec fn deep_view(&self) -> Seq<char> {
        self.uri.deep_view()
    }
}

impl URI {
    pub fn new(uri: &str) -> (r: URI)
        ensures
            r.deep_view() == uri@,
    {
        URI { uri: uri.to_owned() }
    }
}

/// An unsigned integer naming a session, a request, or a subscription.
pub type ID = u64;

/// The reason carried by a Goodbye or an Abort message.
#[derive(Debug, Clone, Copy, PartialEq, Eq, Structural)]
pub enum Reason {
    GoodbyeAndOut,
    SystemShutdown,
    CloseRealm,
    Unknown,
}

/// The roles this client advertises at handshake time: publisher and
/// subscriber only.
#[derive(Debug, Clone, Copy, PartialEq, Eq, Structural)]
pub struct ClientRoles {}

impl ClientRoles {
    pub fn new() -> (r: ClientRoles)
        ensures
            r == (ClientRoles {}),
    {
        ClientRoles {}
    }
}

/// The capability advertisement sent with Hello.
#[derive(Debug, Clone, Copy, PartialEq, Eq, Structural)]
pub struct HelloDetails {
    pub roles: ClientRoles,
}

impl HelloDetails {
    pub fn new(roles: ClientRoles) -> (r: HelloDetails)
        ensures
            r == (HelloDetails { roles }),
    {
        HelloDetails { roles }
    }
}

/// The detail record carried by Goodbye messages; this client sends none.
#[derive(Debug, Clone, Copy, PartialEq, Eq, Structural)]
pub struct ErrorDetails {}

impl ErrorDetails {
    pub fn new() -> (r: ErrorDetails)
        ensures
            r == (ErrorDetails {}),
    {
        ErrorDetails {}
    }
}

/// Options sent with a Subscribe request; this client asks for none.
#[derive(Debug, Clone, Copy, PartialEq, Eq, Structural)]
pub struct SubscribeOptions {}

impl SubscribeOptions {
    pub fn new() -> (r: SubscribeOptions)
        ensures
            r == (SubscribeOptions {}),
    {
        SubscribeOptions {}
    }
}

/// Options sent with a Publish request.
#[derive(Debug, Clone, Copy, PartialEq, Eq, Structural)]
pub struct PublishOptions {
    pub acknowledge: bool,
}

impl PublishOptions {
    pub fn new(acknowledge: bool) -> (r: PublishOptions)
        ensures
            r == (PublishOptions { acknowledge }),
    {
        PublishOptions { acknowledge }
    }
}

/// One protocol message. Each variant's field set is fixed by the protocol.
#[derive(Debug, Clone, PartialEq, Eq)]
pub enum Message {
    Hello(URI, HelloDetails),
    Welcome(ID, Dict),
    Abort(Dict, Reason),
    Goodbye(ErrorDetails, Reason),
    Subscribe(ID, SubscribeOptions, URI),
    Subscribed(ID, ID),
    Event(ID, ID, Dict),
    EventArgs(ID, ID, Dict, List),
    EventKwArgs(ID, ID, Dict, List, Dict),
    Publish(ID, PublishOptions, URI),
    PublishArgs(ID, PublishOptions, URI, List),
    PublishKwArgs(ID, PublishOptions, URI, List, Dict),
    Error(ID, URI),
}

/// The mathematical shape of a [`Message`].
pub enum MessageV {
    Hello(Seq<char>, HelloDetails),
    Welcome(ID, DictV),
    Abort(DictV, Reason),
    Goodbye(ErrorDetails, Reason),
    Subscribe(ID, SubscribeOptions, Seq<char>),
    Subscribed(ID, ID),
    Event(ID, ID, DictV),
    EventArgs(ID, ID, DictV, ListV),
    EventKwArgs(ID, ID, DictV, ListV, DictV),
    Publish(ID, PublishOptions, Seq<char>),
    PublishArgs(ID, PublishOptions, Seq<char>, ListV),
    PublishKwArgs(ID, PublishOptions, Seq<char>, ListV, DictV),
    Error(ID, Seq<char>),
}

impl DeepView for Message {
    type V = MessageV;

    open spec fn deep_view(&self) -> MessageV {
        match self {
            Message::Hello(realm, d) => MessageV::Hello(realm.deep_view(), *d),
            Message::Welcome(sid, d) => MessageV::Welcome(*sid, d.deep_view()),
            Message::Abort(d, r) => MessageV::Abort(d.deep_view(), *r),
            Message::Goodbye(d, r) => MessageV::Goodbye(*d, *r),
            Message::Subscribe(rid, o, t) => MessageV::Subscribe(*rid, *o, t.deep_view()),
            Message::Subscribed(rid, sid) => MessageV::Subscribed(*rid, *sid),
            Message::Event(sid, pid, d) => MessageV::Event(*sid, *pid, d.deep_view()),
            Message::EventArgs(sid, pid, d, a) => MessageV::EventArgs(
                *sid,
                *pid,
                d.deep_view(),
                a.deep_view(),
            ),
            Message::EventKwArgs(sid, pid, d, a, k) => MessageV::EventKwArgs(
                *sid,
                *pid,
                d.deep_view(),
                a.deep_view(),
                k.deep_view(),
            ),
            Message::Publish(rid, o, t) => MessageV::Publish(*rid, *o, t.deep_view()),
            Message::PublishArgs(rid, o, t, a) => MessageV::PublishArgs(
                *rid,
                *o,
                t.deep_view(),
                a.deep_view(),
            ),
            Message::PublishKwArgs(rid, o, t, a, k) => MessageV::PublishKwArgs(
                *rid,
                *o,
                t.deep_view(),
                a.deep_view(),
                k.deep_view(),
            ),
            Message::Error(rid, u) => MessageV::Error(*rid, u.deep_view()),
        }
    }
}

} // verus!
