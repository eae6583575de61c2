use wamp_pubsub::client::{
    choose_protocol, classify_frame, handle_welcome_frame, message_format, welcome_outcome,
    FrameAction, HandshakeStep,
};
use wamp_pubsub::codec::{decode, encode, Frame};
use wamp_pubsub::messages::{
    ClientRoles, ErrorDetails, HelloDetails, Message, PublishOptions, Reason, SubscribeOptions,
    URI,
};
use wamp_pubsub::values::Value;
use wamp_pubsub::{Format, WampError};

fn sample_messages() -> Vec<Message> {
    let dict = vec![
        ("k".to_string(), Value::Text("v".to_string())),
        ("n".to_string(), Value::Int(7)),
        ("b".to_string(), Value::Bool(true)),
        ("z".to_string(), Value::Null),
    ];
    let args = vec![Value::Int(1), Value::Int(2), Value::Int(3)];
    vec![
        Message::Hello(URI::new("realm1"), HelloDetails::new(ClientRoles::new())),
        Message::Welcome(9007, dict.clone()),
        Message::Abort(dict.clone(), Reason::Unknown),
        Message::Goodbye(ErrorDetails::new(), Reason::GoodbyeAndOut),
        Message::Goodbye(ErrorDetails::new(), Reason::SystemShutdown),
        Message::Goodbye(ErrorDetails::new(), Reason::CloseRealm),
        Message::Subscribe(1, SubscribeOptions::new(), URI::new("com.example.topic")),
        Message::Subscribed(1, 42),
        Message::Event(42, 7, dict.clone()),
        Message::EventArgs(42, 7, dict.clone(), args.clone()),
        Message::EventKwArgs(42, 7, vec![], args.clone(), dict.clone()),
        Message::Publish(2, PublishOptions::new(false), URI::new("t")),
        Message::PublishArgs(2, PublishOptions::new(true), URI::new("t"), args.clone()),
        Message::PublishKwArgs(
            u64::MAX,
            PublishOptions::new(false),
            URI::new("t"),
            args,
            dict,
        ),
        Message::Error(3, URI::new("wamp.error.not_authorized")),
    ]
}

#[test]
fn round_trip_binary_all_variants() {
    for m in sample_messages() {
        let f = encode(&m, Format::Binary);
        let back = decode(&f).expect("binary round trip should decode");
        assert_eq!(back, m);
    }
}

#[test]
fn round_trip_text_all_variants() {
    for m in sample_messages() {
        let f = encode(&m, Format::Text);
        let back = decode(&f).expect("text round trip should decode");
        assert_eq!(back, m);
    }
}

#[test]
fn round_trip_awkward_strings() {
    let tricky = "a\"b\\c{}[]:,\u{00e9}\u{4e16}";
    let m = Message::EventArgs(
        1,
        2,
        vec![(tricky.to_string(), Value::Text(tricky.to_string()))],
        vec![Value::Text(tricky.to_string())],
    );
    for fmt in [Format::Text, Format::Binary] {
        let f = encode(&m, fmt);
        assert_eq!(decode(&f).unwrap(), m);
    }
}

#[test]
fn text_encoding_exact_sample() {
    let m = Message::Subscribed(1, 42);
    let f = encode(&m, Format::Text);
    match f {
        Frame::Text(cs) => {
            let s: String = cs.into_iter().collect();
            assert_eq!(
                s,
                "{\"Subscribed\":[00000000000000000001,00000000000000000042]}"
            );
        }
        _ => panic!("text format must yield a text frame"),
    }
}

#[test]
fn binary_encoding_starts_with_map_tag() {
    let m = Message::Subscribed(1, 42);
    match encode(&m, Format::Binary) {
        Frame::Binary(b) => {
            // A message is a one-entry map: the map tag, then the entry
            // count 1 as eight little-endian bytes.
            assert_eq!(b[0], 7);
            assert_eq!(&b[1..9], &[1, 0, 0, 0, 0, 0, 0, 0]);
        }
        _ => panic!("binary format must yield a binary frame"),
    }
}

#[test]
fn format_selection_by_tag() {
    assert_eq!(message_format("wamp.2.msgpack"), Format::Binary);
    assert_eq!(message_format("wamp.2.json"), Format::Text);
    assert_eq!(message_format("anything.else"), Format::Text);
    assert_eq!(message_format(""), Format::Text);
}

#[test]
fn negotiation_defaults_to_text() {
    let (tag, warned) = choose_protocol(None);
    assert_eq!(tag, "wamp.2.json");
    assert!(warned);
    let (tag, warned) = choose_protocol(Some(vec![]));
    assert_eq!(tag, "wamp.2.json");
    assert!(warned);
    let (tag, warned) = choose_protocol(Some(vec![
        "wamp.2.msgpack".to_string(),
        "wamp.2.json".to_string(),
    ]));
    assert_eq!(tag, "wamp.2.msgpack");
    assert!(!warned);
}

#[test]
fn welcome_outcome_cases() {
    assert_eq!(welcome_outcome(&Message::Welcome(77, vec![])), Ok(77));
    assert_eq!(
        welcome_outcome(&Message::Abort(vec![], Reason::Unknown)),
        Err(WampError::ConnectionLost)
    );
    assert_eq!(
        welcome_outcome(&Message::Subscribed(1, 2)),
        Err(WampError::UnexpectedMessage)
    );
}

#[test]
fn welcome_frame_handling() {
    match handle_welcome_frame(Frame::Close) {
        HandshakeStep::Fail(WampError::ConnectionLost) => {}
        _ => panic!("close before welcome must lose the connection"),
    }
    match handle_welcome_frame(Frame::Ping(vec![1, 2, 3])) {
        HandshakeStep::Reply(Frame::Pong(p)) => assert_eq!(p, vec![1, 2, 3]),
        _ => panic!("a ping must be answered with a pong of the same payload"),
    }
    match handle_welcome_frame(Frame::Pong(vec![])) {
        HandshakeStep::Continue => {}
        _ => panic!("a pong is ignored"),
    }
    let abort = encode(&Message::Abort(vec![], Reason::Unknown), Format::Binary);
    match handle_welcome_frame(abort) {
        HandshakeStep::Fail(WampError::ConnectionLost) => {}
        _ => panic!("abort before welcome must lose the connection"),
    }
    let welcome = encode(&Message::Welcome(31337, vec![]), Format::Binary);
    match handle_welcome_frame(welcome) {
        HandshakeStep::Done(sid) => assert_eq!(sid, 31337),
        _ => panic!("welcome must complete the handshake"),
    }
    let stray = encode(&Message::Subscribed(1, 2), Format::Text);
    match handle_welcome_frame(stray) {
        HandshakeStep::Fail(WampError::UnexpectedMessage) => {}
        _ => panic!("a stray message before welcome is out of sequence"),
    }
}

#[test]
fn decode_failures_are_typed_by_format() {
    assert_eq!(
        decode(&Frame::Binary(vec![0xde, 0xad, 0xbe, 0xef])),
        Err(WampError::BinaryDecode)
    );
    assert_eq!(
        decode(&Frame::Text("not a message".chars().collect())),
        Err(WampError::TextDecode)
    );
    assert_eq!(
        decode(&Frame::Ping(vec![])),
        Err(WampError::UnexpectedMessage)
    );
}

#[test]
fn decode_rejects_trailing_bytes() {
    let m = Message::Subscribed(1, 2);
    if let Frame::Binary(mut b) = encode(&m, Format::Binary) {
        b.push(0);
        assert_eq!(decode(&Frame::Binary(b)), Err(WampError::BinaryDecode));
    } else {
        panic!("binary format must yield a binary frame");
    }
}

#[test]
fn classify_frame_control_handling() {
    match classify_frame(Frame::Ping(vec![9])) {
        FrameAction::Reply(Frame::Pong(p)) => assert_eq!(p, vec![9]),
        _ => panic!("ping must be answered with a pong"),
    }
    match classify_frame(Frame::Close) {
        FrameAction::Shutdown => {}
        _ => panic!("close must end the loop"),
    }
    match classify_frame(Frame::Pong(vec![])) {
        FrameAction::Ignore => {}
        _ => panic!("pong is a no-op"),
    }
    let f = encode(&Message::Subscribed(5, 6), Format::Binary);
    match classify_frame(f) {
        FrameAction::Data(Ok(Message::Subscribed(5, 6))) => {}
        _ => panic!("a data frame is decoded"),
    }
}
