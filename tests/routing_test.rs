use bevy_rosc::{
    method_dispatcher_system, unpack_bundle, unpack_packets, Address, Bundle, CompiledPattern,
    Message, MultiAddressOscMethod, OscDispatcher, OscMethod, Packet, RoutingError,
    SingleAddressOscMethod,
};
use rosc::{OscTime, OscType};
use std::sync::Arc;

fn time() -> OscTime {
    OscTime {
        seconds: 0,
        fractional: 0,
    }
}

fn msg(addr: &str, value: i32) -> Message {
    Message {
        addr: addr.to_string(),
        args: vec![OscType::Int(value)],
    }
}

fn packet(addr: &str, value: i32) -> Packet {
    Packet::Message(msg(addr, value))
}

fn value_of(m: &Message) -> i32 {
    match m.args[0] {
        OscType::Int(v) => v,
        _ => panic!("not an integer"),
    }
}

fn single(addr: &str) -> SingleAddressOscMethod {
    SingleAddressOscMethod::new(addr.to_string()).unwrap()
}

#[test]
fn flattening_keeps_nesting_order() {
    let bundle = Bundle {
        timetag: time(),
        content: vec![
            packet("/m1", 1),
            Packet::Bundle(Bundle {
                timetag: time(),
                content: vec![
                    Packet::Bundle(Bundle {
                        timetag: time(),
                        content: vec![packet("/m2", 2)],
                    }),
                    packet("/m3", 3),
                ],
            }),
        ],
    };
    let flat = unpack_bundle(bundle);
    let addrs: Vec<&str> = flat.iter().map(|m| m.addr.as_str()).collect();
    assert_eq!(addrs, vec!["/m1", "/m2", "/m3"]);
    assert_eq!(flat.iter().map(value_of).collect::<Vec<_>>(), vec![1, 2, 3]);
}

#[test]
fn flattening_concatenates_packets_in_input_order() {
    let packets = vec![
        packet("/a", 1),
        Packet::Bundle(Bundle {
            timetag: time(),
            content: vec![],
        }),
        Packet::Bundle(Bundle {
            timetag: time(),
            content: vec![packet("/b", 2), packet("/c", 3)],
        }),
        packet("/d", 4),
    ];
    let flat = unpack_packets(packets);
    assert_eq!(flat.iter().map(value_of).collect::<Vec<_>>(), vec![1, 2, 3, 4]);
}

#[test]
fn duplicate_addresses_receive_a_message_once() {
    let mut disp = OscDispatcher::new();
    let event = disp.dispatch(vec![packet("/a", 7)]);
    let mut method = MultiAddressOscMethod::new(vec!["/a".to_string(), "/a".to_string()]).unwrap();
    assert_eq!(method_dispatcher_system(&event, &mut method), 1);
    assert_eq!(value_of(&method.get_message().unwrap()), 7);
    assert!(method.get_message().is_none());
}

#[test]
fn resolving_a_pattern_again_reuses_its_matcher() {
    let mut disp = OscDispatcher::new();
    let pattern = "/entity*/value".to_string();
    let first = disp.resolve(&pattern).unwrap();
    for _ in 0..5 {
        let again = disp.resolve(&pattern).unwrap();
        assert!(Arc::ptr_eq(&first, &again));
    }
    assert_eq!(disp.cached_patterns(), 1);
    assert_eq!(first.as_str(), "/entity*/value");
}

#[test]
fn repeated_addresses_are_compiled_once_across_passes() {
    let mut disp = OscDispatcher::new();
    let e1 = disp.dispatch(vec![packet("/a", 1), packet("/b", 2), packet("/a", 3)]);
    assert_eq!(disp.cached_patterns(), 2);
    let e2 = disp.dispatch(vec![packet("/b", 4), packet("/a", 5)]);
    assert_eq!(disp.cached_patterns(), 2);
    assert!(Arc::ptr_eq(&e1.messages[0].0, &e1.messages[2].0));
    assert!(Arc::ptr_eq(&e1.messages[0].0, &e2.messages[1].0));
    assert!(Arc::ptr_eq(&e1.messages[1].0, &e2.messages[0].0));
    assert!(!Arc::ptr_eq(&e1.messages[0].0, &e1.messages[1].0));
}

#[test]
fn wildcard_message_fans_out_to_matching_receivers() {
    let mut disp = OscDispatcher::new();
    let event = disp.dispatch(vec![packet("/entity*/value", 9)]);
    let mut receivers = vec![
        single("/entity1/value"),
        single("/entity2/value"),
        single("/entity3/value"),
    ];
    for r in receivers.iter_mut() {
        assert_eq!(method_dispatcher_system(&event, r), 1);
        assert_eq!(value_of(&r.get_message().unwrap()), 9);
        assert!(r.get_message().is_none());
    }
    let mut other = single("/other/value");
    assert_eq!(method_dispatcher_system(&event, &mut other), 0);
    assert!(other.get_message().is_none());
}

#[test]
fn bundle_messages_reach_their_receivers() {
    let bundle = Bundle {
        timetag: time(),
        content: vec![
            packet("/entity1/value", 1),
            Packet::Bundle(Bundle {
                timetag: time(),
                content: vec![packet("/entity2/value", 2), packet("/entity3/value", 3)],
            }),
        ],
    };
    let mut disp = OscDispatcher::new();
    let event = disp.dispatch(vec![Packet::Bundle(bundle)]);
    let mut receivers = vec![
        single("/entity1/value"),
        single("/entity2/value"),
        single("/entity3/value"),
    ];
    for (i, r) in receivers.iter_mut().enumerate() {
        method_dispatcher_system(&event, r);
        let m = r.get_message().unwrap();
        assert_eq!(value_of(&m), i as i32 + 1);
        assert!(r.get_message().is_none());
    }
}

#[test]
fn empty_batch_changes_nothing() {
    let mut disp = OscDispatcher::new();
    let event = disp.dispatch(vec![]);
    assert!(event.messages.is_empty());
    assert!(event.malformed.is_empty());
    assert_eq!(disp.cached_patterns(), 0);
    let mut r = single("/a");
    assert_eq!(method_dispatcher_system(&event, &mut r), 0);
    assert!(r.get_message().is_none());
}

#[test]
fn invalid_addresses_are_rejected() {
    assert_eq!(
        SingleAddressOscMethod::new("no-leading-slash".to_string()).err(),
        Some(RoutingError::InvalidAddress)
    );
    assert_eq!(
        SingleAddressOscMethod::new("/foo*".to_string()).err(),
        Some(RoutingError::InvalidAddress)
    );
    assert_eq!(
        MultiAddressOscMethod::new(vec!["/ok".to_string(), "/not ok".to_string()]).err(),
        Some(RoutingError::InvalidAddress)
    );
    for bad in ["", "/", "/a/", "//a", "/a#b", "/a{b}", "/a?", "/a,b", "/[a]"] {
        assert!(Address::new(bad.to_string()).is_err(), "{}", bad);
    }
    for good in ["/a", "/foo/bar/123", "/a-b/c_d/~!"] {
        assert_eq!(Address::new(good.to_string()).unwrap().as_str(), good);
    }
}

#[test]
fn receivers_start_with_their_addresses_and_an_empty_queue() {
    let mut s = single("/foo/bar");
    assert_eq!(s.get_address().as_str(), "/foo/bar");
    let addrs = s.get_addresses();
    assert_eq!(addrs.len(), 1);
    assert_eq!(addrs[0].as_str(), "/foo/bar");
    assert!(s.get_message().is_none());

    let mut m = MultiAddressOscMethod::new(vec!["/x".to_string(), "/y/z".to_string()]).unwrap();
    let addrs: Vec<String> = m.get_addresses().iter().map(|a| a.as_str().to_string()).collect();
    assert_eq!(addrs, vec!["/x".to_string(), "/y/z".to_string()]);
    assert!(m.get_message().is_none());

}

#[test]
fn multi_address_receiver_needs_an_address() {
    assert_eq!(
        MultiAddressOscMethod::new(vec![]).err(),
        Some(RoutingError::NoAddresses)
    );
    assert_eq!(
        MultiAddressOscMethod::new(vec!["bad".to_string()]).err(),
        Some(RoutingError::InvalidAddress)
    );
}

#[test]
fn queue_hands_out_messages_oldest_first() {
    let mut r = single("/q");
    r.receive_message(msg("/q", 1));
    r.receive_message(msg("/q", 2));
    r.receive_message(msg("/q", 3));
    assert_eq!(value_of(&r.get_message().unwrap()), 1);
    assert_eq!(value_of(&r.get_message().unwrap()), 2);
    assert_eq!(value_of(&r.get_message().unwrap()), 3);
    assert!(r.get_message().is_none());
}

#[test]
fn match_message_reports_whether_it_received() {
    let mut m = MultiAddressOscMethod::new(vec!["/one".to_string(), "/two".to_string()]).unwrap();
    let matcher = CompiledPattern::compile(&"/t[uvw]o".to_string()).unwrap();
    assert!(m.match_message(&matcher, &msg("/t[uvw]o", 4)));
    let miss = CompiledPattern::compile(&"/three".to_string()).unwrap();
    assert!(!m.match_message(&miss, &msg("/three", 5)));
    assert_eq!(value_of(&m.get_message().unwrap()), 4);
    assert!(m.get_message().is_none());
}

#[test]
fn compiled_pattern_wildcards() {
    let star = CompiledPattern::compile(&"/a/*".to_string()).unwrap();
    let choice = CompiledPattern::compile(&"/{foo,bar}/x".to_string()).unwrap();
    let mut foo = single("/foo/x");
    let mut baz = single("/baz/x");
    let mut ab = single("/a/b");
    assert!(choice.is_compiled_from(&"/{foo,bar}/x".to_string()));
    assert!(!choice.is_compiled_from(&"/foo/x".to_string()));
    assert!(foo.match_message(&choice, &msg("/{foo,bar}/x", 1)));
    assert!(!baz.match_message(&choice, &msg("/{foo,bar}/x", 1)));
    assert!(ab.match_message(&star, &msg("/a/*", 2)));
    assert!(!foo.match_message(&star, &msg("/a/*", 2)));
}

#[test]
fn malformed_patterns_are_set_apart_and_the_rest_delivered() {
    assert_eq!(
        CompiledPattern::compile(&"no-slash".to_string()).err(),
        Some(RoutingError::MalformedPattern)
    );
    let mut disp = OscDispatcher::new();
    let event = disp.dispatch(vec![packet("/a", 1), packet("bad", 2), packet("/a[", 3), packet("/a", 4)]);
    assert_eq!(event.messages.len(), 2);
    assert_eq!(value_of(&event.messages[0].1), 1);
    assert_eq!(value_of(&event.messages[1].1), 4);
    assert_eq!(event.malformed.len(), 2);
    assert_eq!(value_of(&event.malformed[0]), 2);
    assert_eq!(value_of(&event.malformed[1]), 3);
    assert_eq!(disp.cached_patterns(), 1);
    assert_eq!(
        disp.resolve(&"bad".to_string()).err(),
        Some(RoutingError::MalformedPattern)
    );
    assert_eq!(disp.cached_patterns(), 1);
    let mut r = single("/a");
    assert_eq!(method_dispatcher_system(&event, &mut r), 2);
}

#[test]
fn cloned_message_keeps_address_and_arguments() {
    let m = Message {
        addr: "/c".to_string(),
        args: vec![OscType::Int(1), OscType::String("s".to_string()), OscType::Bool(true)],
    };
    let c = m.clone();
    assert_eq!(c.addr, "/c");
    assert_eq!(c.args, m.args);
}
