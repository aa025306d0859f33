//! Receivers of OSC messages ("OSC methods") and the delivery of a matched
//! message to them.
use crate::address::{is_valid_address, pattern_matches, Address, CompiledPattern, RoutingError};
use crate::packet::{lemma_message_views_push, message_views, Message, MessageView};
use std::collections::VecDeque;
use vstd::prelude::*;

verus! {

/// Whether `pattern` matches at least one of `addresses`.
pub open spec fn matches_any(pattern: Seq<char>, addresses: Seq<Seq<char>>) -> bool {
    exists|i: int| 0 <= i < addresses.len() && pattern_matches(pattern, #[trigger] addresses[i])
}

/// The queue of a receiver with `addresses` after `message`, whose address
/// compiled into `pattern`, was offered to it: one copy of the message is
/// appended if any of the addresses matches, however many do.
pub open spec fn offered(
    queue: Seq<MessageView>,
    addresses: Seq<Seq<char>>,
    pattern: Seq<char>,
    message: MessageView,
) -> Seq<MessageView> {
    if matches_any(pattern, addresses) {
        queue.push(message)
    } else {
        queue
    }
}

/// The views of a list of addresses.
pub open spec fn address_views(s: Seq<Address>) -> Seq<Seq<char>> {
    s.map_values(|a: Address| a@)
}

/// Something that receives OSC messages at one or more addresses.
pub trait OscMethod {
    /// The addresses this method answers to, in order.
    spec fn addresses(&self) -> Seq<Seq<char>>;

    /// The messages this method has received and still holds, oldest first.
    spec fn queued(&self) -> Seq<MessageView>;

    /// Returns all the addresses of this method.
    fn get_addresses(&self) -> (r: Vec<Address>)
        ensures
            address_views(r@) == self.addresses(),
    ;

    /// Receives a message that matched one of the addresses.
    fn receive_message(&mut self, osc_message: Message)
        ensures
            final(self).addresses() == old(self).addresses(),
            final(self).queued() == old(self).queued().push(osc_message@),
    ;

    /// Receives `message` if the pattern compiled from its address matches
    /// one of this method's addresses, and tells whether it did. The message
    /// is received at most once, however many of the addresses match; it is
    /// received only once a match has been found.
    fn match_message(&mut self, matcher: &CompiledPattern, message: &Message) -> (r: bool)
        ensures
            r == matches_any(matcher@, old(self).addresses()),
            old(self).addresses().contains(matcher@) ==> r,
            final(self).addresses() == old(self).addresses(),
            final(self).queued() == offered(old(self).queued(), old(self).addresses(), matcher@, message@),
    {
        let addresses = self.get_addresses();
        let ghost addrs = self.addresses();
        let mut i: usize = 0;
        while i < addresses.len()
            invariant
                address_views(addresses@) == addrs,
                addrs == old(self).addresses(),
                self.addresses() == old(self).addresses(),
                self.queued() == old(self).queued(),
                0 <= i <= addresses.len(),
                forall|j: int| 0 <= j < i ==> !pattern_matches(matcher@, #[trigger] addrs[j]),
                forall|j: int| 0 <= j < i ==> #[trigger] addrs[j] != matcher@,
            decreases addresses.len() - i,
        {
            assert(addrs[i as int] == addresses@[i as int]@);
            if matcher.accepts(&addresses[i]) {
                self.receive_message(message.clone());
                return true;
            }
            i = i + 1;
        }
        false
    }
}

/// The texts of a list of strings.
pub open spec fn string_views(s: Seq<String>) -> Seq<Seq<char>> {
    s.map_values(|t: String| t@)
}

/// What `get_message` does to a queue: the oldest message leaves it.
pub open spec fn popped(queue: Seq<MessageView>, r: Option<Message>, rest: Seq<MessageView>) -> bool {
    if queue.len() == 0 {
        r is None && rest == queue
    } else {
        r matches Some(m) && m@ == queue[0] && rest == queue.drop_first()
    }
}

proof fn lemma_pop_front_views(q: Seq<Message>)
    requires
        q.len() > 0,
    ensures
        message_views(q.subrange(1, q.len() as int)) == message_views(q).drop_first(),
{
    assert(message_views(q.subrange(1, q.len() as int)) =~= message_views(q).drop_first());
}

proof fn lemma_address_views_push(s: Seq<Address>, a: Address)
    ensures
        address_views(s.push(a)) == address_views(s).push(a@),
{
    assert(address_views(s.push(a)) =~= address_views(s).push(a@));
}

proof fn lemma_take_push<T>(s: Seq<T>, k: int)
    requires
        0 <= k < s.len(),
    ensures
        s.take(k + 1) == s.take(k).push(s[k]),
{
    assert(s.take(k + 1) =~= s.take(k).push(s[k]));
}

proof fn lemma_string_views_push(s: Seq<String>, t: String)
    ensures
        string_views(s.push(t)) == string_views(s).push(t@),
{
    assert(string_views(s.push(t)) =~= string_views(s).push(t@));
}

/// A receiver of OSC messages at several addresses, which queues the
/// messages it receives.
pub struct MultiAddressOscMethod {
    addresses: Vec<Address>,
    messages: VecDeque<Message>,
}

impl MultiAddressOscMethod {
    /// Takes the oldest message out of the queue; `None` when it is empty.
    pub fn get_message(&mut self) -> (r: Option<Message>)
        ensures
            popped(old(self).queued(), r, final(self).queued()),
            final(self).addresses() == old(self).addresses(),
    {
        let r = self.messages.pop_front();
        proof {
            if old(self).messages@.len() > 0 {
                lemma_pop_front_views(old(self).messages@);
            }
        }
        r
    }

    /// A receiver at `addresses`, with an empty queue. A receiver has one or
    /// more addresses: fails with `NoAddresses` when `addresses` is empty,
    /// and with `InvalidAddress` when any of them is not a valid OSC address.
    pub fn new(addresses: Vec<String>) -> (r: Result<Self, RoutingError>)
        ensures
            r is Ok <==> addresses@.len() > 0 && forall|i: int|
                0 <= i < addresses@.len() ==> is_valid_address(#[trigger] addresses@[i]@),
            r matches Ok(m) ==> m.addresses() == string_views(addresses@) && m.queued().len() == 0,
            r matches Err(e) ==> e == if addresses@.len() == 0 {
                RoutingError::NoAddresses
            } else {
                RoutingError::InvalidAddress
            },
    {
        if addresses.len() == 0 {
            return Err(RoutingError::NoAddresses);
        }
        let ghost texts = addresses@;
        let mut osc_addresses: Vec<Address> = Vec::new();
        for address in it: addresses
            invariant
                it.seq() == texts,
                address_views(osc_addresses@) == string_views(texts.take(it.index() as int)),
                forall|i: int| 0 <= i < it.index() ==> is_valid_address(#[trigger] texts[i]@),
        {
            match Address::new(address) {
                Ok(a) => {
                    proof {
                        lemma_address_views_push(osc_addresses@, a);
                        lemma_take_push(texts, it.index() as int);
                        lemma_string_views_push(texts.take(it.index() as int), address);
                    }
                    osc_addresses.push(a);
                },
                Err(e) => {
                    return Err(e);
                },
            }
        }
        proof {
            assert(texts.take(texts.len() as int) =~= texts);
        }
        Ok(MultiAddressOscMethod { addresses: osc_addresses, messages: VecDeque::new() })
    }
}

impl OscMethod for MultiAddressOscMethod {
    closed spec fn addresses(&self) -> Seq<Seq<char>> {
        address_views(self.addresses@)
    }

    closed spec fn queued(&self) -> Seq<MessageView> {
        message_views(self.messages@)
    }

    fn get_addresses(&self) -> (r: Vec<Address>) {
        let mut r: Vec<Address> = Vec::new();
        let mut i: usize = 0;
        while i < self.addresses.len()
            invariant
                0 <= i <= self.addresses.len(),
                address_views(r@) == address_views(self.addresses@.take(i as int)),
            decreases self.addresses.len() - i,
        {
            let a = self.addresses[i].clone();
            proof {
                lemma_address_views_push(r@, a);
                lemma_take_push(self.addresses@, i as int);
                lemma_address_views_push(self.addresses@.take(i as int), self.addresses@[i as int]);
            }
            r.push(a);
            i = i + 1;
        }
        proof {
            assert(self.addresses@.take(i as int) =~= self.addresses@);
        }
        r
    }

    fn receive_message(&mut self, osc_message: Message) {
        proof {
            lemma_message_views_push(self.messages@, osc_message);
        }
        self.messages.push_back(osc_message);
    }
}

/// A receiver of OSC messages at one address, which queues the messages it
/// receives.
pub struct SingleAddressOscMethod {
    address: Address,
    messages: VecDeque<Message>,
}

impl SingleAddressOscMethod {
    /// Takes the oldest message out of the queue; `None` when it is empty.
    pub fn get_message(&mut self) -> (r: Option<Message>)
        ensures
            popped(old(self).queued(), r, final(self).queued()),
            final(self).addresses() == old(self).addresses(),
    {
        let r = self.messages.pop_front();
        proof {
            if old(self).messages@.len() > 0 {
                lemma_pop_front_views(old(self).messages@);
            }
        }
        r
    }

    /// A receiver at `address`, with an empty queue. Fails with
    /// `InvalidAddress` when it is not a valid OSC address.
    pub fn new(address: String) -> (r: Result<Self, RoutingError>)
        ensures
            r is Ok <==> is_valid_address(address@),
            r matches Ok(m) ==> m.addresses() == seq![address@] && m.queued().len() == 0,
            r matches Err(e) ==> e == RoutingError::InvalidAddress,
    {
        let address = Address::new(address)?;
        Ok(SingleAddressOscMethod { address, messages: VecDeque::new() })
    }

    /// The one address of this receiver.
    pub fn get_address(&self) -> (r: Address)
        ensures
            self.addresses() == seq![r@],
    {
        self.address.clone()
    }
}

impl OscMethod for SingleAddressOscMethod {
    closed spec fn addresses(&self) -> Seq<Seq<char>> {
        seq![self.address@]
    }

    closed spec fn queued(&self) -> Seq<MessageView> {
        message_views(self.messages@)
    }

    fn get_addresses(&self) -> (r: Vec<Address>) {
        let r = vec![self.address.clone()];
        proof {
            assert(address_views(r@) =~= seq![self.address@]);
        }
        r
    }

    fn receive_message(&mut self, osc_message: Message) {
        proof {
            lemma_message_views_push(self.messages@, osc_message);
        }
        self.messages.push_back(osc_message);
    }
}

} // verus!
