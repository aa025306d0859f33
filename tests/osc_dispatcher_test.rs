use bevy_rosc::{method_dispatcher_system, Bundle, Message, MultiAddressOscMethod, OscDispatcher, Packet};
use rosc::OscTime;

fn message(addr: &str) -> Packet {
    Packet::Message(Message {
        addr: addr.to_string(),
        args: vec![],
    })
}

#[test]
/// Minimal test of the dispatcher: a single OSC message gives an event.
fn dispatch_osc_message() {
    let mut disp = OscDispatcher::default();
    let event = disp.dispatch(vec![message("/foo")]);

    // The event holds the message
    assert!(!event.messages.is_empty());
}

#[test]
/// Same as above, but with a bundle, which has to be unpacked into its
/// constituent messages before the event is formed.
fn dispatch_osc_bundle() {
    let new_msg = Bundle {
        timetag: OscTime {
            seconds: 0,
            fractional: 0,
        },
        content: vec![
            message("/entity1/value"),
            Packet::Bundle(Bundle {
                timetag: OscTime {
                    seconds: 0,
                    fractional: 0,
                },
                content: vec![message("/entity2/value"), message("/entity3/value")],
            }),
        ],
    };

    let mut disp = OscDispatcher::default();
    let event = disp.dispatch(vec![Packet::Bundle(new_msg)]);

    let received_msgs = &event.messages;
    assert_eq!(3, received_msgs.len());
    assert_eq!("/entity1/value", received_msgs[0].1.addr);
    assert_eq!("/entity2/value", received_msgs[1].1.addr);
    assert_eq!("/entity3/value", received_msgs[2].1.addr);
}

#[test]
fn dispatch_event_pairs_each_message_with_its_own_pattern() {
    let mut disp = OscDispatcher::new();
    let event = disp.dispatch(vec![message("/a/b"), message("/c")]);
    assert_eq!(event.messages[0].0.as_str(), "/a/b");
    assert_eq!(event.messages[1].0.as_str(), "/c");
    assert!(event.malformed.is_empty());
}

#[test]
fn method_dispatcher_system_counts_received_messages() {
    let mut disp = OscDispatcher::new();
    let event = disp.dispatch(vec![message("/x"), message("/y"), message("/x")]);
    let mut method = MultiAddressOscMethod::new(vec!["/x".to_string()]).unwrap();
    assert_eq!(method_dispatcher_system(&event, &mut method), 2);
    assert_eq!(method.get_message().unwrap().addr, "/x");
    assert_eq!(method.get_message().unwrap().addr, "/x");
    assert!(method.get_message().is_none());
}
