//! The dispatcher: flattens packets, compiles each message address once and
//! caches it, and hands matched messages to receivers.
use crate::address::{pattern_compiles, CompiledPattern, RoutingError};
use crate::byte_order::{bytes_lt, compare_bytes, lemma_bytes_lt_irreflexive, lemma_bytes_lt_transitive};
use crate::osc_method::{offered, OscMethod};
use crate::packet::{lemma_message_views_push, message_views, packets_messages, unpack_packets, Message, MessageView, Packet};
use std::sync::Arc;
use vstd::prelude::*;
use vstd::utf8::{encode_utf8, encode_utf8_decode_utf8};

verus! {

/// Relies on `Arc::clone`: the result points to the same value.
#[verifier::external_body]
fn share(matcher: &Arc<CompiledPattern>) -> (r: Arc<CompiledPattern>)
    ensures
        r == *matcher,
{
    Arc::clone(matcher)
}

/// The matcher that `cache` holds for `pattern`: the last entry compiled
/// from it, if any.
pub open spec fn lookup(cache: Seq<Arc<CompiledPattern>>, pattern: Seq<char>) -> Option<Arc<CompiledPattern>>
    decreases cache.len(),
{
    if cache.len() == 0 {
        None
    } else if cache.last()@ == pattern {
        Some(cache.last())
    } else {
        lookup(cache.drop_last(), pattern)
    }
}

/// The patterns of the entries of a cache, in order.
pub open spec fn patterns(cache: Seq<Arc<CompiledPattern>>) -> Seq<Seq<char>> {
    cache.map_values(|c: Arc<CompiledPattern>| c@)
}

/// The outcome of resolving `pattern` against `cache`, which becomes `next`:
/// a pattern seen before gives the matcher compiled then and leaves the cache
/// as it is; a new one is compiled once and appended, or, when it cannot be
/// compiled, fails with `MalformedPattern` and leaves the cache as it is.
pub open spec fn resolved(
    cache: Seq<Arc<CompiledPattern>>,
    pattern: Seq<char>,
    r: Result<Arc<CompiledPattern>, RoutingError>,
    next: Seq<Arc<CompiledPattern>>,
) -> bool {
    match lookup(cache, pattern) {
        Some(c) => r == Ok::<Arc<CompiledPattern>, RoutingError>(c) && next == cache,
        None => if pattern_compiles(pattern) {
            r matches Ok(c) && c@ == pattern && next == cache.push(c)
        } else {
            r == Err::<Arc<CompiledPattern>, RoutingError>(RoutingError::MalformedPattern) && next == cache
        },
    }
}

/// What a dispatch pass produced: the messages whose address compiled, each
/// with its matcher, in order; and, in order too, those whose address did
/// not compile, which no receiver is offered.
pub struct OscDispatchEvent {
    pub messages: Vec<(Arc<CompiledPattern>, Message)>,
    pub malformed: Vec<Message>,
}

/// The matched messages of an event, each as its matcher's pattern and the
/// message.
pub open spec fn entry_views(s: Seq<(Arc<CompiledPattern>, Message)>) -> Seq<(Seq<char>, MessageView)> {
    s.map_values(|e: (Arc<CompiledPattern>, Message)| (e.0@, e.1@))
}

/// The messages among `msgs` whose address compiles, in order, each with
/// its own address as the pattern.
pub open spec fn routed(msgs: Seq<MessageView>) -> Seq<(Seq<char>, MessageView)>
    decreases msgs.len(),
{
    if msgs.len() == 0 {
        Seq::empty()
    } else if pattern_compiles(msgs.last().addr) {
        routed(msgs.drop_last()).push((msgs.last().addr, msgs.last()))
    } else {
        routed(msgs.drop_last())
    }
}

/// The messages among `msgs` whose address does not compile, in order.
pub open spec fn malformed(msgs: Seq<MessageView>) -> Seq<MessageView> {
    msgs.filter(|m: MessageView| !pattern_compiles(m.addr))
}

/// The cached patterns `ps` after the addresses of `msgs` were resolved in
/// turn: each address that compiles and is not cached yet is appended.
pub open spec fn grown(ps: Seq<Seq<char>>, msgs: Seq<MessageView>) -> Seq<Seq<char>>
    decreases msgs.len(),
{
    if msgs.len() == 0 {
        ps
    } else {
        let prev = grown(ps, msgs.drop_last());
        let a = msgs.last().addr;
        if pattern_compiles(a) && !prev.contains(a) {
            prev.push(a)
        } else {
            prev
        }
    }
}

/// The outcome of a dispatch pass over `msgs` that started from `cache`
/// and left `next`: the event holds the messages whose address compiles,
/// in order, each with the one cached matcher of its address; the others
/// are set apart, in order; the cache keeps its entries and gains one for
/// each new address that compiles, in the order of first appearance.
pub open spec fn dispatched(
    cache: Seq<Arc<CompiledPattern>>,
    msgs: Seq<MessageView>,
    ev: OscDispatchEvent,
    next: Seq<Arc<CompiledPattern>>,
) -> bool {
    &&& entry_views(ev.messages@) == routed(msgs)
    &&& message_views(ev.malformed@) == malformed(msgs)
    &&& cache.is_prefix_of(next)
    &&& patterns(next) == grown(patterns(cache), msgs)
    &&& forall|k: int|
        0 <= k < ev.messages@.len() ==> lookup(next, (#[trigger] ev.messages@[k]).0@) == Some(
            ev.messages@[k].0,
        )
}

/// The queue of a receiver with `addresses` after the matched messages
/// `entries` were offered to it in order.
pub open spec fn delivered(
    entries: Seq<(Seq<char>, MessageView)>,
    queue: Seq<MessageView>,
    addresses: Seq<Seq<char>>,
) -> Seq<MessageView>
    decreases entries.len(),
{
    if entries.len() == 0 {
        queue
    } else {
        offered(delivered(entries.drop_last(), queue, addresses), addresses, entries.last().0, entries.last().1)
    }
}

proof fn lemma_lookup(cache: Seq<Arc<CompiledPattern>>, p: Seq<char>)
    ensures
        lookup(cache, p) is Some <==> patterns(cache).contains(p),
        lookup(cache, p) matches Some(c) ==> c@ == p,
    decreases cache.len(),
{
    if cache.len() > 0 {
        assert(patterns(cache.drop_last()) =~= patterns(cache).drop_last());
        lemma_lookup(cache.drop_last(), p);
        if cache.last()@ != p {
            if patterns(cache).contains(p) {
                let j = choose|j: int| 0 <= j < patterns(cache).len() && patterns(cache)[j] == p;
                assert(j < cache.len() - 1);
                assert(patterns(cache.drop_last())[j] == p);
            }
        } else {
            assert(patterns(cache)[cache.len() - 1] == p);
        }
    }
}

proof fn lemma_lookup_push(cache: Seq<Arc<CompiledPattern>>, c: Arc<CompiledPattern>, q: Seq<char>)
    requires
        c@ != q,
    ensures
        lookup(cache.push(c), q) == lookup(cache, q),
{
    assert(cache.push(c).drop_last() =~= cache);
}

proof fn lemma_patterns_push(cache: Seq<Arc<CompiledPattern>>, c: Arc<CompiledPattern>)
    ensures
        patterns(cache.push(c)) == patterns(cache).push(c@),
{
    assert(patterns(cache.push(c)) =~= patterns(cache).push(c@));
}

proof fn lemma_entry_views_push(s: Seq<(Arc<CompiledPattern>, Message)>, e: (Arc<CompiledPattern>, Message))
    ensures
        entry_views(s.push(e)) == entry_views(s).push((e.0@, e.1@)),
{
    assert(entry_views(s.push(e)) =~= entry_views(s).push((e.0@, e.1@)));
}

/// The bytes of an entry's pattern, by which the cache is ordered.
spec fn key(c: Arc<CompiledPattern>) -> Seq<u8> {
    encode_utf8(c@)
}

/// The key of the entry at place `k` of the sorted order `o`.
spec fn key_at(m: Seq<Arc<CompiledPattern>>, o: Seq<usize>, k: int) -> Seq<u8> {
    key(m[o[k] as int])
}

/// `o` lists the places of all entries of `m` by increasing key, with no
/// two keys equal; `pos` gives the place of each entry in `o`. Every cached
/// pattern is one that compiles.
spec fn index_wf(m: Seq<Arc<CompiledPattern>>, o: Seq<usize>, pos: Seq<int>) -> bool {
    &&& o.len() == m.len()
    &&& pos.len() == m.len()
    &&& forall|k: int| 0 <= k < m.len() ==> (#[trigger] o[k]) < m.len()
    &&& forall|j: int| 0 <= j < m.len() ==> 0 <= #[trigger] pos[j] < m.len() && o[pos[j]] == j
    &&& forall|i: int, k: int|
        0 <= i < k < m.len() ==> bytes_lt(#[trigger] key_at(m, o, i), #[trigger] key_at(m, o, k))
    &&& forall|j: int| 0 <= j < m.len() ==> pattern_compiles(#[trigger] m[j]@)
}

proof fn lemma_encode_injective(a: Seq<char>, b: Seq<char>)
    requires
        encode_utf8(a) == encode_utf8(b),
    ensures
        a == b,
{
    encode_utf8_decode_utf8(a);
    encode_utf8_decode_utf8(b);
}

proof fn lemma_index_unique(m: Seq<Arc<CompiledPattern>>, o: Seq<usize>, pos: Seq<int>)
    requires
        index_wf(m, o, pos),
    ensures
        forall|j1: int, j2: int|
            0 <= j1 < m.len() && 0 <= j2 < m.len() && j1 != j2 ==> (#[trigger] m[j1])@ != (#[trigger] m[j2])@,
{
    assert forall|j1: int, j2: int|
        0 <= j1 < m.len() && 0 <= j2 < m.len() && j1 != j2 implies (#[trigger] m[j1])@ != (#[trigger] m[j2])@ by {
        let p1 = pos[j1];
        let p2 = pos[j2];
        lemma_bytes_lt_irreflexive(key(m[j1]));
        if p1 < p2 {
            assert(bytes_lt(key_at(m, o, p1), key_at(m, o, p2)));
        } else {
            assert(bytes_lt(key_at(m, o, p2), key_at(m, o, p1)));
        }
    }
}

proof fn lemma_lookup_unique(m: Seq<Arc<CompiledPattern>>, p: Seq<char>, j: int)
    requires
        0 <= j < m.len(),
        m[j]@ == p,
        forall|j1: int, j2: int|
            0 <= j1 < m.len() && 0 <= j2 < m.len() && j1 != j2 ==> (#[trigger] m[j1])@ != (#[trigger] m[j2])@,
    ensures
        lookup(m, p) == Some(m[j]),
    decreases m.len(),
{
    if j < m.len() - 1 {
        assert(m[m.len() - 1]@ != p);
        lemma_lookup_unique(m.drop_last(), p, j);
    }
}

proof fn lemma_index_insert(
    m: Seq<Arc<CompiledPattern>>,
    o: Seq<usize>,
    pos: Seq<int>,
    lo: int,
    c: Arc<CompiledPattern>,
    n: usize,
)
    requires
        index_wf(m, o, pos),
        n == m.len(),
        0 <= lo <= n,
        pattern_compiles(c@),
        forall|i: int| 0 <= i < lo ==> bytes_lt(#[trigger] key_at(m, o, i), key(c)),
        forall|i: int| lo <= i < n ==> bytes_lt(key(c), #[trigger] key_at(m, o, i)),
    ensures
        index_wf(
            m.push(c),
            o.insert(lo, n),
            Seq::new((n + 1) as nat, |j: int| if j == n { lo } else if pos[j] >= lo { pos[j] + 1 } else { pos[j] }),
        ),
{
    let m2 = m.push(c);
    let o2 = o.insert(lo, n);
    let pos2 = Seq::new((n + 1) as nat, |j: int| if j == n { lo } else if pos[j] >= lo { pos[j] + 1 } else { pos[j] });
    o.insert_ensures(lo, n);
    assert forall|i: int| 0 <= i <= n implies #[trigger] key_at(m2, o2, i) == if i < lo {
        key_at(m, o, i)
    } else if i == lo {
        key(c)
    } else {
        key_at(m, o, i - 1)
    } by {
        if i < lo {
            assert(o2[i] == o[i]);
            assert(o[i] < n);
            assert(m2[o[i] as int] == m[o[i] as int]);
        } else if i == lo {
            assert(o2[i] == n);
            assert(m2[n as int] == c);
        } else {
            assert(o2[i] == o[i - 1]);
            assert(o[i - 1] < n);
            assert(m2[o[i - 1] as int] == m[o[i - 1] as int]);
        }
    }
    assert forall|k: int| 0 <= k < n + 1 implies (#[trigger] o2[k]) < n + 1 by {
        if k < lo {
            assert(o2[k] == o[k]);
        } else if k > lo {
            assert(o2[k] == o[k - 1]);
        }
    }
    assert forall|j: int| 0 <= j < n + 1 implies 0 <= #[trigger] pos2[j] < n + 1 && o2[pos2[j]] == j by {
        if j < n {
            if pos[j] >= lo {
                assert(o2[pos[j] + 1] == o[pos[j]]);
            } else {
                assert(o2[pos[j]] == o[pos[j]]);
            }
        }
    }
    assert forall|i: int, k: int| 0 <= i < k < n + 1 implies bytes_lt(
        #[trigger] key_at(m2, o2, i),
        #[trigger] key_at(m2, o2, k),
    ) by {
        assert(key_at(m2, o2, i) == if i < lo {
            key_at(m, o, i)
        } else if i == lo {
            key(c)
        } else {
            key_at(m, o, i - 1)
        });
        assert(key_at(m2, o2, k) == if k < lo {
            key_at(m, o, k)
        } else if k == lo {
            key(c)
        } else {
            key_at(m, o, k - 1)
        });
        if i < lo && k > lo {
            assert(bytes_lt(key_at(m, o, i), key_at(m, o, k - 1)));
        } else if i > lo {
            assert(bytes_lt(key_at(m, o, i - 1), key_at(m, o, k - 1)));
        } else if i < lo && k < lo {
            assert(bytes_lt(key_at(m, o, i), key_at(m, o, k)));
        } else if i == lo {
            assert(bytes_lt(key(c), key_at(m, o, k - 1)));
        }
    }
}

/// Compiles message addresses into matchers, each distinct address once, and
/// keeps the matchers for the rest of its life.
pub struct OscDispatcher {
    /// The matchers, in the order in which their patterns were first seen.
    matchers: Vec<Arc<CompiledPattern>>,
    /// The places of the matchers in `matchers`, by increasing pattern bytes.
    order: Vec<usize>,
    /// The place of each matcher in `order`.
    positions: Ghost<Seq<int>>,
}

impl OscDispatcher {
    /// The matchers compiled so far, in the order in which their patterns
    /// were first seen.
    pub closed spec fn cache(&self) -> Seq<Arc<CompiledPattern>> {
        self.matchers@
    }

    /// The cache's search index is in order.
    pub closed spec fn wf(&self) -> bool {
        index_wf(self.matchers@, self.order@, self.positions@)
    }

    /// A dispatcher with an empty cache.
    pub fn new() -> (r: OscDispatcher)
        ensures
            r.wf(),
            r.cache().len() == 0,
    {
        OscDispatcher { matchers: Vec::new(), order: Vec::new(), positions: Ghost(Seq::empty()) }
    }

    /// The number of patterns compiled and cached so far.
    pub fn cached_patterns(&self) -> (r: usize)
        ensures
            r == self.cache().len(),
    {
        self.matchers.len()
    }

    /// Unpacks `osc_packets` into their messages, packet by packet, and
    /// resolves the address of each into its matcher. A message whose
    /// address does not compile is set apart and the pass goes on with the
    /// rest.
    pub fn dispatch(&mut self, osc_packets: Vec<Packet>) -> (ev: OscDispatchEvent)
        requires
            old(self).wf(),
        ensures
            final(self).wf(),
            dispatched(old(self).cache(), packets_messages(osc_packets@), ev, final(self).cache()),
    {
        let osc_messages = unpack_packets(osc_packets);
        self.dispatch_messages(osc_messages)
    }

    /// Resolves the address of each message in turn into its matcher.
    fn dispatch_messages(&mut self, osc_messages: Vec<Message>) -> (ev: OscDispatchEvent)
        requires
            old(self).wf(),
        ensures
            final(self).wf(),
            dispatched(old(self).cache(), message_views(osc_messages@), ev, final(self).cache()),
    {
        let ghost input = osc_messages@;
        let ghost start = self.cache();
        let mut messages: Vec<(Arc<CompiledPattern>, Message)> = Vec::new();
        let mut malformed_messages: Vec<Message> = Vec::new();
        for message in it: osc_messages
            invariant
                it.seq() == input,
                self.wf(),
                entry_views(messages@) == routed(message_views(input.take(it.index() as int))),
                message_views(malformed_messages@) == malformed(message_views(input.take(it.index() as int))),
                start.is_prefix_of(self.cache()),
                patterns(self.cache()) == grown(patterns(start), message_views(input.take(it.index() as int))),
                forall|k: int|
                    0 <= k < messages@.len() ==> lookup(self.cache(), (#[trigger] messages@[k]).0@) == Some(
                        messages@[k].0,
                    ),
        {
            let ghost done = message_views(input.take(it.index() as int));
            let ghost before = self.cache();
            proof {
                assert(input.take(it.index() + 1) =~= input.take(it.index() as int).push(message));
                lemma_message_views_push(input.take(it.index() as int), message);
                assert(done.push(message@).drop_last() =~= done);
                lemma_lookup(before, message.addr@);
                reveal_with_fuel(Seq::filter, 1);
                if pattern_compiles(message.addr@) {
                    assert(malformed(done.push(message@)) == malformed(done));
                } else {
                    assert(malformed(done.push(message@)) == malformed(done).push(message@));
                }
            }
            match self.resolve(&message.addr) {
                Ok(matcher) => {
                    proof {
                        lemma_lookup(self.cache(), message.addr@);
                        lemma_entry_views_push(messages@, (matcher, message));
                        if lookup(before, message.addr@) is None {
                            lemma_patterns_push(before, matcher);
                            assert forall|k: int| 0 <= k < messages@.len() implies lookup(
                                self.cache(),
                                (#[trigger] messages@[k]).0@,
                            ) == Some(messages@[k].0) by {
                                lemma_lookup(before, messages@[k].0@);
                                lemma_lookup_push(before, matcher, messages@[k].0@);
                            }
                            assert(start.is_prefix_of(self.cache()));
                        }
                    }
                    messages.push((matcher, message));
                },
                Err(_) => {
                    proof {
                        lemma_message_views_push(malformed_messages@, message);
                    }
                    malformed_messages.push(message);
                },
            }
        }
        proof {
            assert(input.take(input.len() as int) =~= input);
        }
        OscDispatchEvent { messages, malformed: malformed_messages }
    }

    /// The matcher for `pattern`: the cached one when the same text was
    /// resolved before, else a newly compiled one, which is then cached.
    /// The cache is searched by binary search on the pattern bytes.
    pub fn resolve(&mut self, pattern: &String) -> (r: Result<Arc<CompiledPattern>, RoutingError>)
        requires
            old(self).wf(),
        ensures
            final(self).wf(),
            resolved(old(self).cache(), pattern@, r, final(self).cache()),
            r is Ok ==> pattern_compiles(pattern@),
    {
        let ghost m = self.matchers@;
        let ghost o = self.order@;
        let ghost pos = self.positions@;
        let target = pattern.as_str().as_bytes();
        let mut lo: usize = 0;
        let mut hi: usize = self.order.len();
        while lo < hi
            invariant
                self.matchers@ == m,
                self.order@ == o,
                self.positions@ == pos,
                index_wf(m, o, pos),
                0 <= lo <= hi <= o.len(),
                target@ == encode_utf8(pattern@),
                forall|i: int| 0 <= i < lo ==> bytes_lt(#[trigger] key_at(m, o, i), target@),
                forall|i: int| hi <= i < o.len() ==> bytes_lt(target@, #[trigger] key_at(m, o, i)),
            decreases hi - lo,
        {
            let mid = lo + (hi - lo) / 2;
            let entry = &self.matchers[self.order[mid]];
            let c = compare_bytes(entry.as_str().as_bytes(), target);
            if c == 0 {
                proof {
                    let j = o[mid as int] as int;
                    lemma_encode_injective(m[j]@, pattern@);
                    lemma_index_unique(m, o, pos);
                    lemma_lookup_unique(m, pattern@, j);
                }
                return Ok(share(entry));
            } else if c < 0 {
                proof {
                    assert forall|i: int| 0 <= i <= mid implies bytes_lt(#[trigger] key_at(m, o, i), target@) by {
                        if i < mid {
                            lemma_bytes_lt_transitive(key_at(m, o, i), key_at(m, o, mid as int), target@);
                        }
                    }
                }
                lo = mid + 1;
            } else {
                proof {
                    assert forall|i: int| mid <= i < o.len() implies bytes_lt(target@, #[trigger] key_at(m, o, i)) by {
                        if i > mid {
                            lemma_bytes_lt_transitive(target@, key_at(m, o, mid as int), key_at(m, o, i));
                        }
                    }
                }
                hi = mid;
            }
        }
        proof {
            assert forall|j: int| 0 <= j < m.len() implies #[trigger] patterns(m)[j] != pattern@ by {
                let p = pos[j];
                assert(key_at(m, o, p) == key(m[j]));
                lemma_bytes_lt_irreflexive(target@);
            }
            lemma_lookup(m, pattern@);
        }
        match CompiledPattern::compile(pattern) {
            Ok(compiled) => {
                let matcher = Arc::new(compiled);
                let n = self.matchers.len();
                self.matchers.push(share(&matcher));
                self.order.insert(lo, n);
                self.positions = Ghost(
                    Seq::new(
                        (n + 1) as nat,
                        |j: int| if j == n { lo as int } else if pos[j] >= lo { pos[j] + 1 } else { pos[j] },
                    ),
                );
                proof {
                    lemma_index_insert(m, o, pos, lo as int, matcher, n);
                }
                Ok(matcher)
            },
            Err(e) => Err(e),
        }
    }
}

impl Default for OscDispatcher {
    fn default() -> (r: OscDispatcher)
        ensures
            r.wf(),
            r.cache().len() == 0,
    {
        OscDispatcher::new()
    }
}

/// Offers every matched message of `event`, in order, to `osc_method`,
/// which receives each whose matcher accepts one of its addresses, once.
/// Returns how many it received.
pub fn method_dispatcher_system<T: OscMethod>(event: &OscDispatchEvent, osc_method: &mut T) -> (n: usize)
    ensures
        final(osc_method).addresses() == old(osc_method).addresses(),
        final(osc_method).queued() == delivered(
            entry_views(event.messages@),
            old(osc_method).queued(),
            old(osc_method).addresses(),
        ),
        n == final(osc_method).queued().len() - old(osc_method).queued().len(),
{
    let ghost entries = entry_views(event.messages@);
    let mut n: usize = 0;
    let mut i: usize = 0;
    while i < event.messages.len()
        invariant
            0 <= i <= event.messages.len(),
            entries == entry_views(event.messages@),
            osc_method.addresses() == old(osc_method).addresses(),
            osc_method.queued() == delivered(entries.take(i as int), old(osc_method).queued(), old(osc_method).addresses()),
            n <= i,
            n == osc_method.queued().len() - old(osc_method).queued().len(),
        decreases event.messages.len() - i,
    {
        proof {
            assert(entries.take(i + 1).drop_last() =~= entries.take(i as int));
        }
        let entry = &event.messages[i];
        if osc_method.match_message(&*entry.0, &entry.1) {
            n = n + 1;
        }
        i = i + 1;
    }
    proof {
        assert(entries.take(i as int) =~= entries);
    }
    n
}

/// Resolving one pattern again and again gives the same matcher each time
/// once it has been compiled: after the first success the pattern is never
/// compiled again and the cache stays as the first resolution left it.
pub proof fn lemma_resolve_idempotent(
    caches: Seq<Seq<Arc<CompiledPattern>>>,
    pattern: Seq<char>,
    results: Seq<Result<Arc<CompiledPattern>, RoutingError>>,
)
    requires
        results.len() > 0,
        caches.len() == results.len() + 1,
        forall|i: int| 0 <= i < results.len() ==> resolved(#[trigger] caches[i], pattern, results[i], caches[i + 1]),
        results[0] is Ok,
    ensures
        forall|i: int| 0 <= i < results.len() ==> #[trigger] results[i] == results[0] && caches[i + 1] == caches[1],
    decreases results.len(),
{
    if results.len() > 1 {
        let n = results.len() - 1;
        let rs = results.drop_last();
        let cs = caches.drop_last();
        lemma_resolve_idempotent(cs, pattern, rs);
        assert(rs[n - 1] == rs[0]);
        assert(caches[n] == caches[1]);
        let c0 = results[0]->Ok_0;
        assert(resolved(caches[0], pattern, results[0], caches[1]));
        if lookup(caches[0], pattern) is None {
            assert(caches[1].drop_last() =~= caches[0]);
        }
        assert(lookup(caches[1], pattern) == Some(c0));
        assert(resolved(caches[n], pattern, results[n], caches[n + 1]));
        assert forall|i: int| 0 <= i < results.len() implies #[trigger] results[i] == results[0] && caches[i + 1]
            == caches[1] by {
            if i < n {
                assert(rs[i] == rs[0]);
            }
        }
    }
}

/// The cache holds at most one matcher for each pattern text: resolving
/// keeps the cached patterns free of duplicates.
pub proof fn lemma_resolve_keeps_patterns_unique(
    cache: Seq<Arc<CompiledPattern>>,
    pattern: Seq<char>,
    r: Result<Arc<CompiledPattern>, RoutingError>,
    next: Seq<Arc<CompiledPattern>>,
)
    requires
        patterns(cache).no_duplicates(),
        resolved(cache, pattern, r, next),
    ensures
        patterns(next).no_duplicates(),
{
    lemma_lookup(cache, pattern);
    if lookup(cache, pattern) is None && pattern_compiles(pattern) {
        lemma_patterns_push(cache, r->Ok_0);
    }
}

proof fn lemma_grown_no_duplicates(ps: Seq<Seq<char>>, msgs: Seq<MessageView>)
    requires
        ps.no_duplicates(),
    ensures
        grown(ps, msgs).no_duplicates(),
    decreases msgs.len(),
{
    if msgs.len() > 0 {
        lemma_grown_no_duplicates(ps, msgs.drop_last());
        let prev = grown(ps, msgs.drop_last());
        let a = msgs.last().addr;
        if pattern_compiles(a) && !prev.contains(a) {
            assert forall|i: int, j: int| 0 <= i < j < prev.len() + 1 implies prev.push(a)[i] != prev.push(a)[j] by {
                if j == prev.len() {
                    assert(prev[i] == prev.push(a)[i]);
                }
            }
        }
    }
}

/// Within one dispatch pass, messages sent to the same address share one
/// matcher, the one the cache holds for it, and each address is compiled
/// and cached at most once: the cache holds no pattern twice.
pub proof fn lemma_dispatch_compiles_each_address_once(
    cache: Seq<Arc<CompiledPattern>>,
    msgs: Seq<MessageView>,
    ev: OscDispatchEvent,
    next: Seq<Arc<CompiledPattern>>,
    i: int,
    j: int,
)
    requires
        dispatched(cache, msgs, ev, next),
        patterns(cache).no_duplicates(),
        0 <= i < ev.messages@.len(),
        0 <= j < ev.messages@.len(),
        ev.messages@[i].1.addr@ == ev.messages@[j].1.addr@,
    ensures
        ev.messages@[i].0 == ev.messages@[j].0,
        patterns(next).no_duplicates(),
{
    lemma_grown_no_duplicates(patterns(cache), msgs);
    let es = entry_views(ev.messages@);
    assert(es[i] == (ev.messages@[i].0@, ev.messages@[i].1@));
    assert(es[j] == (ev.messages@[j].0@, ev.messages@[j].1@));
    lemma_routed_pattern_is_address(msgs);
    assert(lookup(next, ev.messages@[i].0@) == Some(ev.messages@[i].0));
    assert(lookup(next, ev.messages@[j].0@) == Some(ev.messages@[j].0));
}

proof fn lemma_routed_pattern_is_address(msgs: Seq<MessageView>)
    ensures
        forall|k: int| 0 <= k < routed(msgs).len() ==> (#[trigger] routed(msgs)[k]).0 == routed(msgs)[k].1.addr,
    decreases msgs.len(),
{
    if msgs.len() > 0 {
        lemma_routed_pattern_is_address(msgs.drop_last());
        let prev = routed(msgs.drop_last());
        assert forall|k: int| 0 <= k < routed(msgs).len() implies (#[trigger] routed(msgs)[k]).0
            == routed(msgs)[k].1.addr by {
            if k < prev.len() {
                assert(routed(msgs)[k] == prev[k]);
            }
        }
    }
}

/// An empty batch compiles nothing, produces no message, and leaves every
/// receiver's queue as it was.
pub proof fn lemma_empty_batch(
    cache: Seq<Arc<CompiledPattern>>,
    ev: OscDispatchEvent,
    next: Seq<Arc<CompiledPattern>>,
    queue: Seq<MessageView>,
    addresses: Seq<Seq<char>>,
)
    requires
        dispatched(cache, packets_messages(Seq::empty()), ev, next),
    ensures
        next == cache,
        ev.messages@.len() == 0,
        ev.malformed@.len() == 0,
        delivered(entry_views(ev.messages@), queue, addresses) == queue,
{
    reveal_with_fuel(Seq::filter, 1);
    assert(packets_messages(Seq::<Packet>::empty()) =~= Seq::<MessageView>::empty());
    assert(entry_views(ev.messages@).len() == ev.messages@.len());
    assert(message_views(ev.malformed@).len() == ev.malformed@.len());
    assert(patterns(next).len() == patterns(cache).len());
    assert(next =~= cache);
}

/// Each matched message reaches a receiver at most once: offering `entries`
/// adds at most one message per entry to its queue, and only messages of
/// the entries.
pub proof fn lemma_at_most_once_per_message(
    entries: Seq<(Seq<char>, MessageView)>,
    queue: Seq<MessageView>,
    addresses: Seq<Seq<char>>,
)
    ensures
        queue.len() <= delivered(entries, queue, addresses).len() <= queue.len() + entries.len(),
        delivered(entries, queue, addresses).take(queue.len() as int) == queue,
    decreases entries.len(),
{
    if entries.len() > 0 {
        lemma_at_most_once_per_message(entries.drop_last(), queue, addresses);
        let prev = delivered(entries.drop_last(), queue, addresses);
        assert(prev.push(entries.last().1).take(queue.len() as int) =~= prev.take(queue.len() as int));
    }
}

} // verus!
