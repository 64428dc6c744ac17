//! Decisions of the session that serves every peer: which bytes answer a query,
//! when a command's message is complete, and how topics fragment what is published.
//!
//! The session runs one request at a time. Whatever needs the application (the
//! value a query sends, what a completed command does) stays with the caller: it
//! hands the value in, or acts on the message handed back.
use vstd::prelude::*;

use crate::api::{CmdApi, CommandReq, PubReq, PubSubTopic, QueryApi, QueryReq, SubReq, MAX_BUFFER_LEN};
use crate::envelope::{encode_chunk, envelope_bytes, parse_envelope, DataChunk};
use crate::error::BleError;
use crate::mobile_buffer::{cursor_or_idle, read_step, write_step, CursorView, MobileBufferMap};
use crate::peer_table::PeerTable;
use crate::publisher::{publish_chunks, publish_run};

verus! {

/// Values sent to one peer by query kind. A value stays until the peer leaves;
/// an SDP answer also goes when the peer completes a new offer.
pub struct SourceCache {
    host_info: Option<Vec<u8>>,
    sdp_answer: Option<Vec<u8>>,
}

impl SourceCache {
    closed spec fn slot(&self, k: QueryApi) -> Option<Vec<u8>> {
        match k {
            QueryApi::HostInfo => self.host_info,
            QueryApi::SdpAnswer => self.sdp_answer,
        }
    }

    fn empty() -> (r: Self)
        ensures
            r@ == Map::<QueryApi, Seq<u8>>::empty(),
    {
        let r = SourceCache { host_info: None, sdp_answer: None };
        proof {
            assert(r@ =~= Map::<QueryApi, Seq<u8>>::empty());
        }
        r
    }

    fn get(&self, k: QueryApi) -> (r: Option<&Vec<u8>>)
        ensures
            match r {
                Some(v) => self@.get(k) == Some(v@),
                None => self@.get(k) is None,
            },
    {
        match k {
            QueryApi::HostInfo => self.host_info.as_ref(),
            QueryApi::SdpAnswer => self.sdp_answer.as_ref(),
        }
    }

    fn set(&mut self, k: QueryApi, v: Option<Vec<u8>>)
        ensures
            final(self)@ == match v {
                Some(b) => old(self)@.insert(k, b@),
                None => old(self)@.remove(k),
            },
    {
        let ghost gv = v;
        match k {
            QueryApi::HostInfo => self.host_info = v,
            QueryApi::SdpAnswer => self.sdp_answer = v,
        }
        proof {
            match gv {
                Some(b) => assert(self@ =~= old(self)@.insert(k, b@)),
                None => assert(self@ =~= old(self)@.remove(k)),
            }
        }
    }
}

impl View for SourceCache {
    type V = Map<QueryApi, Seq<u8>>;

    closed spec fn view(&self) -> Map<QueryApi, Seq<u8>> {
        Map::new(|k: QueryApi| self.slot(k) is Some, |k: QueryApi| self.slot(k)->Some_0@)
    }
}

/// What the session holds: the transfer cursors of each peer, the value each peer
/// is being sent per query kind, and the fragment size of each topic.
pub struct SessionView {
    pub cursors: Map<Seq<char>, CursorView>,
    pub cache: Map<Seq<char>, Map<QueryApi, Seq<u8>>>,
    pub topics: Map<PubSubTopic, nat>,
}

/// The cached value of `kind` for `addr`, if any.
pub open spec fn cached(cache: Map<Seq<char>, Map<QueryApi, Seq<u8>>>, addr: Seq<char>, kind: QueryApi) -> Option<Seq<u8>> {
    if cache.contains_key(addr) {
        cache[addr].get(kind)
    } else {
        None
    }
}

/// `cache` with the value of `kind` for `addr` set to `v`.
pub open spec fn cache_with(
    cache: Map<Seq<char>, Map<QueryApi, Seq<u8>>>,
    addr: Seq<char>,
    kind: QueryApi,
    v: Seq<u8>,
) -> Map<Seq<char>, Map<QueryApi, Seq<u8>>> {
    let inner = if cache.contains_key(addr) {
        cache[addr]
    } else {
        Map::empty()
    };
    cache.insert(addr, inner.insert(kind, v))
}

/// `cache` without the value of `kind` for `addr`.
pub open spec fn cache_without(
    cache: Map<Seq<char>, Map<QueryApi, Seq<u8>>>,
    addr: Seq<char>,
    kind: QueryApi,
) -> Map<Seq<char>, Map<QueryApi, Seq<u8>>> {
    if cache.contains_key(addr) {
        cache.insert(addr, cache[addr].remove(kind))
    } else {
        cache
    }
}

/// The topic sizes after a subscription that asks for fragments of `size` bytes:
/// the first subscription of a topic fixes its size.
pub open spec fn topics_after_sub(topics: Map<PubSubTopic, nat>, topic: PubSubTopic, size: nat) -> Map<PubSubTopic, nat> {
    if topics.contains_key(topic) {
        topics
    } else {
        topics.insert(topic, size)
    }
}

/// The session's state and the decisions taken on each request.
pub struct BleServerCommHandler {
    buffer_map: MobileBufferMap,
    server_data_cache: PeerTable<SourceCache>,
    sdp_answer_ready_size: Option<usize>,
    chunk_len: usize,
}

impl View for BleServerCommHandler {
    type V = SessionView;

    closed spec fn view(&self) -> SessionView {
        SessionView {
            cursors: self.buffer_map@,
            cache: self.server_data_cache@.map_values(|c: SourceCache| c@),
            topics: Map::new(
                |t: PubSubTopic| self.topic_slot(t) is Some,
                |t: PubSubTopic| self.topic_slot(t)->Some_0 as nat,
            ),
        }
    }
}

impl BleServerCommHandler {
    closed spec fn topic_slot(&self, t: PubSubTopic) -> Option<usize> {
        match t {
            PubSubTopic::SdpAnswerReady => self.sdp_answer_ready_size,
        }
    }

    pub closed spec fn wf(&self) -> bool {
        &&& self.buffer_map.wf()
        &&& self.server_data_cache.wf()
        &&& self.buffer_map.overhead() == self.chunk_len
        &&& forall|t: PubSubTopic| #[trigger] self.topic_slot(t) is Some ==> self.topic_slot(t)->Some_0 >= 1
    }

    /// Size of an empty envelope, taken off each transport budget.
    pub closed spec fn overhead(&self) -> nat {
        self.chunk_len as nat
    }

    /// A session with no peer and no topic. The envelope overhead is the size of an
    /// envelope with no fragment and the largest remaining count a message may have.
    pub fn new() -> (r: Self)
        ensures
            r.wf(),
            r@.cursors == Map::<Seq<char>, CursorView>::empty(),
            r@.cache == Map::<Seq<char>, Map<QueryApi, Seq<u8>>>::empty(),
            r@.topics == Map::<PubSubTopic, nat>::empty(),
            r.overhead() == envelope_bytes(MAX_BUFFER_LEN as nat, Seq::empty()).len(),
    {
        let probe = DataChunk { r: MAX_BUFFER_LEN, d: Vec::new() };
        let chunk_len = encode_chunk(&probe).len();
        let r = BleServerCommHandler {
            buffer_map: MobileBufferMap::new(chunk_len),
            server_data_cache: PeerTable::new(),
            sdp_answer_ready_size: None,
            chunk_len,
        };
        proof {
            assert(r@.cache =~= Map::<Seq<char>, Map<QueryApi, Seq<u8>>>::empty());
            assert(r@.topics =~= Map::<PubSubTopic, nat>::empty());
        }
        r
    }

    /// Size of an empty envelope.
    pub fn chunk_len(&self) -> (r: usize)
        ensures
            r == self.overhead(),
    {
        self.chunk_len
    }

    /// Whether a query of `kind` from `addr` needs the value from the application,
    /// none being cached.
    pub fn needs_source(&self, addr: &str, kind: QueryApi) -> (r: bool)
        requires
            self.wf(),
        ensures
            r == (cached(self@.cache, addr@, kind) is None),
    {
        match self.server_data_cache.get(&addr.to_owned()) {
            Some(c) => c.get(kind).is_none(),
            None => true,
        }
    }

    /// Answers a query with the next envelope of the value to send. The value is
    /// the cached one if there is one, else `fetched`, which is then cached.
    /// Refused, with nothing changed: a budget smaller than the envelope overhead;
    /// no value; a value and a budget both too long for an envelope to describe
    /// the fragment.
    pub fn handle_query(&mut self, addr: &str, query: &QueryReq, fetched: Option<Vec<u8>>) -> (r: Result<Vec<u8>, BleError>)
        requires
            old(self).wf(),
        ensures
            final(self).wf(),
            final(self).overhead() == old(self).overhead(),
            final(self)@.topics == old(self)@.topics,
            ({
                let kind = query.query_type;
                let source = match cached(old(self)@.cache, addr@, kind) {
                    Some(v) => Some(v),
                    None => match fetched {
                        Some(f) => Some(f@),
                        None => None,
                    },
                };
                if query.resp_buffer_len < old(self).overhead() {
                    r == Err::<Vec<u8>, BleError>(BleError::BudgetTooSmall) && final(self)@ == old(self)@
                } else if source is None {
                    r == Err::<Vec<u8>, BleError>(BleError::MissingSource) && final(self)@ == old(self)@
                } else if source->Some_0.len() >= 0x1_0000_0000 && query.resp_buffer_len - old(self).overhead()
                    >= 0x1_0000_0000 {
                    r == Err::<Vec<u8>, BleError>(BleError::MessageTooLarge) && final(self)@ == old(self)@
                } else {
                    let data = source->Some_0;
                    let step = read_step(
                        cursor_or_idle(old(self)@.cursors, addr@),
                        kind,
                        data,
                        query.resp_buffer_len as nat,
                        old(self).overhead(),
                    );
                    &&& final(self)@.cursors == old(self)@.cursors.insert(addr@, step.0)
                    &&& final(self)@.cache == cache_with(old(self)@.cache, addr@, kind, data)
                    &&& match r {
                        Ok(b) => b@ == envelope_bytes(step.1.0, step.1.1),
                        Err(_) => false,
                    }
                }
            }),
    {
        if query.resp_buffer_len < self.chunk_len {
            return Err(BleError::BudgetTooSmall);
        }
        let kind = query.query_type;
        let key = addr.to_owned();
        let known: Option<Vec<u8>> = match self.server_data_cache.get(&key) {
            Some(c) => match c.get(kind) {
                Some(v) => Some(v.clone()),
                None => None,
            },
            None => None,
        };
        let data = match known {
            Some(v) => v,
            None => match fetched {
                Some(f) => f,
                None => return Err(BleError::MissingSource),
            },
        };
        if data.len() as u64 >= 0x1_0000_0000u64 && (query.resp_buffer_len - self.chunk_len) as u64
            >= 0x1_0000_0000u64 {
            return Err(BleError::MessageTooLarge);
        }
        let out = self.buffer_map.get_next_data_chunk(addr, query, data.as_slice());
        let mut entry = match self.server_data_cache.remove(&key) {
            Some(c) => c,
            None => SourceCache::empty(),
        };
        entry.set(kind, Some(data));
        self.server_data_cache.insert_new(key, entry);
        proof {
            assert(self@.cache =~= cache_with(old(self)@.cache, addr@, kind, data@));
            assert(self@.topics =~= old(self)@.topics);
            assert(forall|t: PubSubTopic| self.topic_slot(t) == old(self).topic_slot(t));
        }
        Ok(out)
    }

    /// The cached values after a completed command of `kind` from `addr`: a peer
    /// that leaves loses all of them, a new offer makes its answer stale.
    pub open spec fn cache_after_command(
        cache: Map<Seq<char>, Map<QueryApi, Seq<u8>>>,
        addr: Seq<char>,
        kind: CmdApi,
    ) -> Map<Seq<char>, Map<QueryApi, Seq<u8>>> {
        match kind {
            CmdApi::MobileDisconnected => cache.remove(addr),
            CmdApi::SdpOffer => cache_without(cache, addr, QueryApi::SdpAnswer),
            CmdApi::RegisterMobile => cache,
        }
    }

    /// Takes one envelope of a command from `addr`. Gives the whole message once
    /// it is complete, for the caller to act on; a departing peer then loses its
    /// cursors. The reply says only whether the envelope was taken.
    pub fn handle_command(&mut self, addr: &str, cmd: &CommandReq) -> (r: Result<Option<Vec<u8>>, BleError>)
        requires
            old(self).wf(),
        ensures
            final(self).wf(),
            final(self).overhead() == old(self).overhead(),
            final(self)@.topics == old(self)@.topics,
            match parse_envelope(cmd.payload@) {
                Some((rem, d)) if rem <= usize::MAX => {
                    let step = write_step(cursor_or_idle(old(self)@.cursors, addr@), cmd.cmd_type, rem, d);
                    match step.1 {
                        Some(m) => {
                            &&& r matches Ok(Some(b)) && b@ == m
                            &&& final(self)@.cursors == if cmd.cmd_type == CmdApi::MobileDisconnected {
                                old(self)@.cursors.remove(addr@)
                            } else {
                                old(self)@.cursors.insert(addr@, step.0)
                            }
                            &&& final(self)@.cache == Self::cache_after_command(old(self)@.cache, addr@, cmd.cmd_type)
                        },
                        None => {
                            &&& r matches Ok(None)
                            &&& final(self)@.cursors == old(self)@.cursors.insert(addr@, step.0)
                            &&& final(self)@.cache == old(self)@.cache
                        },
                    }
                },
                _ => r == Err::<Option<Vec<u8>>, BleError>(BleError::InvalidEnvelope) && final(self)@ == old(self)@,
            },
    {
        let res = self.buffer_map.get_complete_buffer(addr, cmd);
        proof {
            assert(forall|t: PubSubTopic| self.topic_slot(t) == old(self).topic_slot(t));
        }
        match res {
            Err(e) => {
                proof {
                    assert(self@.cache =~= old(self)@.cache);
                    assert(self@.topics =~= old(self)@.topics);
                }
                Err(e)
            },
            Ok(None) => {
                proof {
                    assert(self@.cache =~= old(self)@.cache);
                    assert(self@.topics =~= old(self)@.topics);
                }
                Ok(None)
            },
            Ok(Some(buffer)) => {
                let key = addr.to_owned();
                match cmd.cmd_type {
                    CmdApi::MobileDisconnected => {
                        self.buffer_map.remove_mobile(addr);
                        let _ = self.server_data_cache.remove(&key);
                        proof {
                            assert(self.buffer_map@ =~= old(self)@.cursors.remove(addr@));
                            assert(self@.cache =~= old(self)@.cache.remove(addr@));
                        }
                    },
                    CmdApi::SdpOffer => {
                        match self.server_data_cache.remove(&key) {
                            Some(mut entry) => {
                                entry.set(QueryApi::SdpAnswer, None);
                                self.server_data_cache.insert_new(key, entry);
                                proof {
                                    assert(self@.cache =~= cache_without(old(self)@.cache, addr@, QueryApi::SdpAnswer));
                                }
                            },
                            None => {
                                proof {
                                    assert(self@.cache =~= old(self)@.cache);
                                }
                            },
                        }
                    },
                    CmdApi::RegisterMobile => {
                        proof {
                            assert(self@.cache =~= old(self)@.cache);
                        }
                    },
                }
                proof {
                    assert(self@.topics =~= old(self)@.topics);
                    assert(forall|t: PubSubTopic| self.topic_slot(t) == old(self).topic_slot(t));
                }
                Ok(Some(buffer))
            },
        }
    }

    /// Registers a subscription to `sub`'s topic and gives the fragment size of the
    /// topic. The first subscription of a topic fixes that size, its budget less
    /// the envelope overhead. A budget that leaves no byte for a fragment is refused
    /// and changes nothing.
    pub fn handle_sub(&mut self, sub: &SubReq) -> (r: Result<usize, BleError>)
        requires
            old(self).wf(),
        ensures
            final(self).wf(),
            final(self).overhead() == old(self).overhead(),
            final(self)@.cursors == old(self)@.cursors,
            final(self)@.cache == old(self)@.cache,
            if sub.resp_buffer_len <= old(self).overhead() {
                r == Err::<usize, BleError>(BleError::BudgetTooSmall) && final(self)@ == old(self)@
            } else {
                &&& final(self)@.topics == topics_after_sub(
                    old(self)@.topics,
                    sub.topic,
                    (sub.resp_buffer_len - old(self).overhead()) as nat,
                )
                &&& r matches Ok(n) && n == final(self)@.topics[sub.topic]
            },
    {
        if sub.resp_buffer_len <= self.chunk_len {
            return Err(BleError::BudgetTooSmall);
        }
        let size = sub.resp_buffer_len - self.chunk_len;
        let fixed = match sub.topic {
            PubSubTopic::SdpAnswerReady => match self.sdp_answer_ready_size {
                Some(n) => n,
                None => {
                    self.sdp_answer_ready_size = Some(size);
                    size
                },
            },
        };
        proof {
            assert(self@.topics =~= topics_after_sub(old(self)@.topics, sub.topic, size as nat));
            assert forall|t: PubSubTopic| #[trigger] self.topic_slot(t) is Some implies self.topic_slot(
                t,
            )->Some_0 >= 1 by {
                assert(old(self).topic_slot(t) is Some ==> old(self).topic_slot(t)->Some_0 >= 1);
            }
        }
        Ok(fixed)
    }

    /// Fragments a published payload into the envelopes that every subscriber of
    /// the topic gets, in order. Refused: a topic nobody ever subscribed to; a
    /// payload and a fragment size both too long for an envelope to describe.
    /// Whether anybody still listens does not matter.
    pub fn handle_pub(&self, pub_req: &PubReq) -> (r: Result<Vec<Vec<u8>>, BleError>)
        requires
            self.wf(),
        ensures
            if !self@.topics.contains_key(pub_req.topic) {
                r == Err::<Vec<Vec<u8>>, BleError>(BleError::TopicNotFound)
            } else if pub_req.payload@.len() >= 0x1_0000_0000 && self@.topics[pub_req.topic]
                >= 0x1_0000_0000 {
                r == Err::<Vec<Vec<u8>>, BleError>(BleError::MessageTooLarge)
            } else {
                let run = publish_run(pub_req.payload@, pub_req.payload@.len(), self@.topics[pub_req.topic]);
                &&& self@.topics[pub_req.topic] >= 1
                &&& r matches Ok(v) && v@.len() == run.len() && forall|i: int|
                    0 <= i < run.len() ==> #[trigger] v@[i]@ == envelope_bytes(run[i].0, run[i].1)
            },
    {
        let size = match pub_req.topic {
            PubSubTopic::SdpAnswerReady => match self.sdp_answer_ready_size {
                Some(n) => n,
                None => return Err(BleError::TopicNotFound),
            },
        };
        if pub_req.payload.len() as u64 >= 0x1_0000_0000u64 && size as u64 >= 0x1_0000_0000u64 {
            return Err(BleError::MessageTooLarge);
        }
        proof {
            assert(self.topic_slot(pub_req.topic) is Some);
        }
        Ok(publish_chunks(pub_req.payload.as_slice(), size))
    }
}

/// Two subscriptions to one topic, each asking for its own fragment size: the
/// topic keeps the size of the first, and a topic that already had a size keeps it.
pub proof fn lemma_first_subscription_fixes_size(
    topics: Map<PubSubTopic, nat>,
    topic: PubSubTopic,
    first: nat,
    second: nat,
)
    ensures
        topics_after_sub(topics_after_sub(topics, topic, first), topic, second)[topic]
            == topics_after_sub(topics, topic, first)[topic],
        !topics.contains_key(topic) ==> topics_after_sub(topics_after_sub(topics, topic, first), topic, second)[topic] == first,
        topics.contains_key(topic) ==> topics_after_sub(topics, topic, first)[topic] == topics[topic],
{
}

} // verus!
