//! Messages, bundles and the flattening of nested bundles.
use rosc::{OscTime, OscType};
use vstd::prelude::*;

verus! {

/// An OSC argument (integer, float, string, blob, ...). The routing logic
/// never looks inside one: arguments are carried through unchanged.
#[verifier::external_type_specification]
#[verifier::external_body]
pub struct ExOscType(OscType);

/// A bundle's time tag, carried through unchanged.
#[verifier::external_type_specification]
#[verifier::external_body]
pub struct ExOscTime(OscTime);

/// Relies on the derived `Clone` of `rosc::OscType`: a clone is a copy of
/// the same value.
pub assume_specification[ <OscType as Clone>::clone ](v: &OscType) -> (r: OscType)
    ensures
        r == *v,
;

/// What a message is, mathematically: its address and its arguments.
pub struct MessageView {
    pub addr: Seq<char>,
    pub args: Seq<OscType>,
}

/// An OSC message: the address it was sent to (a pattern that may hold
/// wildcards) and its arguments.
#[derive(Debug)]
pub struct Message {
    pub addr: String,
    pub args: Vec<OscType>,
}

impl View for Message {
    type V = MessageView;

    open spec fn view(&self) -> MessageView {
        MessageView { addr: self.addr@, args: self.args@ }
    }
}

impl Clone for Message {
    fn clone(&self) -> (r: Self)
        ensures
            r@ == self@,
    {
        let args = self.args.clone();
        assert(args@ =~= self.args@);
        Message { addr: self.addr.clone(), args }
    }
}

/// A time tag and an ordered list of packets, which may be bundles again.
#[derive(Debug)]
pub struct Bundle {
    pub timetag: OscTime,
    pub content: Vec<Packet>,
}

/// What arrives on the wire: a single message or a bundle.
#[derive(Debug)]
pub enum Packet {
    Message(Message),
    Bundle(Bundle),
}

/// The messages of a packet in encounter order: depth first, left to right.
pub open spec fn packet_messages(p: Packet) -> Seq<MessageView>
    decreases p,
{
    match p {
        Packet::Message(m) => seq![m@],
        Packet::Bundle(b) => packets_messages(b.content@),
    }
}

/// The messages of a list of packets, packet after packet.
pub open spec fn packets_messages(ps: Seq<Packet>) -> Seq<MessageView>
    decreases ps,
{
    if ps.len() == 0 {
        Seq::empty()
    } else {
        packets_messages(ps.drop_last()) + packet_messages(ps.last())
    }
}

/// The views of a list of messages.
pub open spec fn message_views(ms: Seq<Message>) -> Seq<MessageView> {
    ms.map_values(|m: Message| m@)
}

proof fn lemma_message_views_add(a: Seq<Message>, b: Seq<Message>)
    ensures
        message_views(a + b) == message_views(a) + message_views(b),
{
    assert(message_views(a + b) =~= message_views(a) + message_views(b));
}

pub(crate) proof fn lemma_message_views_push(s: Seq<Message>, m: Message)
    ensures
        message_views(s.push(m)) == message_views(s).push(m@),
{
    assert(message_views(s.push(m)) =~= message_views(s).push(m@));
}

proof fn lemma_packets_messages_push(ps: Seq<Packet>, p: Packet)
    ensures
        packets_messages(ps.push(p)) == packets_messages(ps) + packet_messages(p),
{
    assert(ps.push(p).drop_last() =~= ps);
}

proof fn lemma_packets_messages_add(a: Seq<Packet>, b: Seq<Packet>)
    ensures
        packets_messages(a + b) == packets_messages(a) + packets_messages(b),
    decreases b.len(),
{
    if b.len() == 0 {
        assert(a + b =~= a);
    } else {
        assert((a + b).drop_last() =~= a + b.drop_last());
        lemma_packets_messages_add(a, b.drop_last());
    }
}

/// Nesting does not change the order of messages: putting packets into a
/// bundle, at any place in a list of packets, leaves the flattened
/// messages as they are.
pub proof fn lemma_nesting_keeps_order(before: Seq<Packet>, bundle: Bundle, after: Seq<Packet>)
    ensures
        packets_messages(before + seq![Packet::Bundle(bundle)] + after) == packets_messages(
            before + bundle.content@ + after,
        ),
{
    let nested = seq![Packet::Bundle(bundle)];
    lemma_packets_messages_add(before + nested, after);
    lemma_packets_messages_add(before, nested);
    lemma_packets_messages_add(before + bundle.content@, after);
    lemma_packets_messages_add(before, bundle.content@);
    assert(nested.drop_last() =~= Seq::<Packet>::empty());
    assert(packets_messages(nested.drop_last()) == Seq::<MessageView>::empty());
    assert(packet_messages(nested.last()) == packets_messages(bundle.content@));
    assert(packets_messages(nested) =~= packets_messages(bundle.content@));
}

/// Flattens a bundle into its messages, depth first and left to right;
/// nested bundles are unpacked in place. The nesting depth is not bounded
/// here: whoever accepts packets must bound their size.
pub fn unpack_bundle(bundle: Bundle) -> (r: Vec<Message>)
    ensures
        message_views(r@) == packets_messages(bundle.content@),
    decreases bundle,
{
    unpack_packets(bundle.content)
}

/// Flattens a list of packets into their messages: the messages of each
/// packet in turn, bundles unpacked in place.
pub fn unpack_packets(packets: Vec<Packet>) -> (r: Vec<Message>)
    ensures
        message_views(r@) == packets_messages(packets@),
    decreases packets,
{
    let ghost content = packets@;
    let mut messages: Vec<Message> = Vec::new();
    for packet in it: packets
        invariant
            it.seq() == content,
            message_views(messages@) == packets_messages(content.take(it.index() as int)),
    {
        proof {
            assert(content.take(it.index() + 1) =~= content.take(it.index() as int).push(packet));
            lemma_packets_messages_push(content.take(it.index() as int), packet);
        }
        match packet {
            Packet::Message(message) => {
                proof {
                    lemma_message_views_push(messages@, message);
                }
                messages.push(message);
            },
            Packet::Bundle(inner) => {
                let mut inner_messages = unpack_bundle(inner);
                proof {
                    lemma_message_views_add(messages@, inner_messages@);
                }
                messages.append(&mut inner_messages);
            },
        }
    }
    proof {
        assert(content.take(content.len() as int) =~= content);
    }
    messages
}

} // verus!
