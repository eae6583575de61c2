use std::cell::RefCell;
use std::rc::Rc;

use wamp_pubsub::client::{Callback, Client, ConnectionState, Connection};
use wamp_pubsub::codec::{decode, Frame};
use wamp_pubsub::messages::{ErrorDetails, Message, Reason, URI};
use wamp_pubsub::values::{Dict, List, Value};
use wamp_pubsub::Format;

/// Records every delivery it receives.
#[derive(Clone)]
struct Recorder {
    hits: Rc<RefCell<Vec<(List, Dict)>>>,
}

impl Recorder {
    fn new() -> Recorder {
        Recorder {
            hits: Rc::new(RefCell::new(Vec::new())),
        }
    }
}

impl Callback for Recorder {
    fn invoke(&self, args: &List, kwargs: &Dict) {
        self.hits.borrow_mut().push((args.clone(), kwargs.clone()));
    }
}

fn text_client() -> Client<Recorder> {
    Client::new("wamp.2.json".to_string(), 100)
}

#[test]
fn subscribe_registers_before_send() {
    let mut c = text_client();
    let cb = Recorder::new();
    let (rid, frame) = c.subscribe(URI::new("com.example.topic"), cb);
    assert_eq!(rid, 1);
    assert_eq!(c.connection_info.subscription_requests.len(), 1);
    match frame {
        Frame::Text(_) => {}
        _ => panic!("a json session sends text frames"),
    }
}

#[test]
fn request_ids_strictly_increase() {
    let mut c = text_client();
    let (a, _) = c.subscribe(URI::new("t1"), Recorder::new());
    let (b, _) = c.publish(URI::new("t2"), vec![], vec![]);
    let (d, _) = c.subscribe(URI::new("t3"), Recorder::new());
    assert!(a < b && b < d);
    assert_eq!((a, b, d), (1, 2, 3));
}

#[test]
fn publish_sends_kwargs_message_without_ack() {
    let mut c = Client::<Recorder>::new("wamp.2.msgpack".to_string(), 1);
    let (rid, frame) = c.publish(
        URI::new("com.example.topic"),
        vec![Value::Int(1)],
        vec![("k".to_string(), Value::Text("v".to_string()))],
    );
    // The identifier is not retained: no pending entry.
    assert_eq!(c.connection_info.subscription_requests.len(), 0);
    match decode(&frame).unwrap() {
        Message::PublishKwArgs(id, opts, topic, args, kwargs) => {
            assert_eq!(id, rid);
            assert!(!opts.acknowledge);
            assert_eq!(topic, URI::new("com.example.topic"));
            assert_eq!(args, vec![Value::Int(1)]);
            assert_eq!(kwargs, vec![("k".to_string(), Value::Text("v".to_string()))]);
        }
        other => panic!("expected PublishKwArgs, got {:?}", other),
    }
}

#[test]
fn msgpack_tag_sends_binary_frames() {
    let mut c = Client::<Recorder>::new("wamp.2.msgpack".to_string(), 1);
    let (_rid, frame) = c.subscribe(URI::new("t"), Recorder::new());
    match frame {
        Frame::Binary(_) => {}
        _ => panic!("a msgpack session sends binary frames"),
    }
    let (_rid, frame) = c.publish(URI::new("t"), vec![], vec![]);
    match frame {
        Frame::Binary(_) => {}
        _ => panic!("a msgpack session sends binary frames"),
    }
}

#[test]
fn shutdown_twice_sends_one_goodbye() {
    let mut c = text_client();
    let first = c.shutdown();
    let second = c.shutdown();
    assert!(first.is_some());
    assert!(second.is_none());
    assert_eq!(
        c.connection_info.connection_state,
        ConnectionState::ShuttingDown
    );
    match decode(&first.unwrap()).unwrap() {
        Message::Goodbye(_, Reason::SystemShutdown) => {}
        other => panic!("expected Goodbye(SystemShutdown), got {:?}", other),
    }
}

#[test]
fn goodbye_while_connected_is_reciprocated() {
    let mut c = text_client();
    let d = c.handle_message(Message::Goodbye(ErrorDetails::new(), Reason::CloseRealm));
    assert!(!d.proceed);
    match d.reply {
        Some(Message::Goodbye(_, Reason::GoodbyeAndOut)) => {}
        other => panic!("expected reciprocal goodbye, got {:?}", other),
    }
    // The lifecycle is not advanced by the dispatch step itself.
    assert_eq!(
        c.connection_info.connection_state,
        ConnectionState::Connected
    );
}

#[test]
fn goodbye_while_shutting_down_sends_nothing() {
    let mut c = text_client();
    let _ = c.shutdown();
    let d = c.handle_message(Message::Goodbye(ErrorDetails::new(), Reason::GoodbyeAndOut));
    assert!(!d.proceed);
    assert!(d.reply.is_none());
}

#[test]
fn event_for_unknown_subscription_is_ignored() {
    let mut c = text_client();
    let cb = Recorder::new();
    let hits = cb.hits.clone();
    let (rid, _) = c.subscribe(URI::new("t"), cb);
    let d = c.handle_message(Message::EventArgs(
        999,
        1,
        vec![],
        vec![Value::Int(5)],
    ));
    assert!(d.proceed);
    assert!(d.delivered.is_none());
    assert_eq!(hits.borrow().len(), 0);
    // No table was touched: the subscription is still pending.
    assert_eq!(c.connection_info.subscription_requests.len(), 1);
    assert_eq!(c.connection_info.subscriptions.len(), 0);
    let _ = rid;
}

#[test]
fn ack_for_unknown_request_is_ignored() {
    let mut c = text_client();
    let d = c.handle_message(Message::Subscribed(123, 456));
    assert!(d.proceed);
    assert_eq!(c.connection_info.subscriptions.len(), 0);
}

#[test]
fn event_before_ack_is_not_delivered() {
    let mut c = text_client();
    let cb = Recorder::new();
    let hits = cb.hits.clone();
    let (rid, _) = c.subscribe(URI::new("t"), cb);
    let early = c.handle_message(Message::EventArgs(42, 7, vec![], vec![Value::Int(1)]));
    assert!(early.delivered.is_none());
    assert_eq!(hits.borrow().len(), 0);
    let _ = c.handle_message(Message::Subscribed(rid, 42));
    let fired = c.handle_message(Message::EventArgs(42, 7, vec![], vec![Value::Int(1)]));
    assert!(fired.delivered.is_some());
    assert_eq!(hits.borrow().len(), 1);
}

#[test]
fn subscribe_ack_event_scenario() {
    // Subscribe, acknowledge with Subscribed(1, 42), then fire
    // EventKwArgs(42, 7, {}, [1,2,3], {"k":"v"}).
    let mut c = text_client();
    let cb = Recorder::new();
    let hits = cb.hits.clone();
    let (rid, _frame) = c.subscribe(URI::new("com.example.topic"), cb);
    assert_eq!(rid, 1);
    let ack = c.handle_message(Message::Subscribed(1, 42));
    assert!(ack.proceed);
    let args = vec![Value::Int(1), Value::Int(2), Value::Int(3)];
    let kwargs = vec![("k".to_string(), Value::Text("v".to_string()))];
    let d = c.handle_message(Message::EventKwArgs(
        42,
        7,
        vec![],
        args.clone(),
        kwargs.clone(),
    ));
    assert!(d.proceed);
    let recorded = hits.borrow();
    assert_eq!(recorded.len(), 1);
    assert_eq!(recorded[0].0, args);
    assert_eq!(recorded[0].1, kwargs);
    assert_eq!(c.connection_info.subscriptions.len(), 1);
    assert!(c.connection_info.subscriptions.contains_key(&42));
    assert_eq!(c.connection_info.subscription_requests.len(), 0);
}

#[test]
fn events_deliver_defaults_for_missing_payloads() {
    let mut c = text_client();
    let cb = Recorder::new();
    let hits = cb.hits.clone();
    let (rid, _) = c.subscribe(URI::new("t"), cb);
    let _ = c.handle_message(Message::Subscribed(rid, 8));
    let _ = c.handle_message(Message::Event(8, 1, vec![]));
    let _ = c.handle_message(Message::EventArgs(8, 2, vec![], vec![Value::Bool(true)]));
    let recorded = hits.borrow();
    assert_eq!(recorded.len(), 2);
    assert!(recorded[0].0.is_empty() && recorded[0].1.is_empty());
    assert_eq!(recorded[1].0, vec![Value::Bool(true)]);
    assert!(recorded[1].1.is_empty());
}

#[test]
fn mark_disconnected_is_terminal() {
    let mut c = text_client();
    c.mark_disconnected();
    assert_eq!(
        c.connection_info.connection_state,
        ConnectionState::Disconnected
    );
    // Shutdown after disconnection is a no-op.
    assert!(c.shutdown().is_none());
    assert_eq!(
        c.connection_info.connection_state,
        ConnectionState::Disconnected
    );
}

#[test]
fn connection_carries_realm_and_offers_binary_first() {
    let conn = Connection::new("ws://127.0.0.1:8090/ws", "realm1");
    assert_eq!(conn.url, "ws://127.0.0.1:8090/ws");
    assert_eq!(conn.realm, URI::new("realm1"));
    let offered = conn.offered_protocols();
    assert_eq!(offered, vec!["wamp.2.msgpack", "wamp.2.json"]);
    let hello = conn.hello_frame(Format::Text);
    match decode(&hello).unwrap() {
        Message::Hello(realm, _) => assert_eq!(realm, URI::new("realm1")),
        other => panic!("expected Hello, got {:?}", other),
    }
}
