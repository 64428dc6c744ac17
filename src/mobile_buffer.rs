//! Fragmentation and reassembly of messages, per peer and per message kind.
//!
//! Each peer may have one read transfer in flight per query kind, and one write
//! transfer per command kind. A read transfer remembers how many bytes are still
//! to be sent; a write transfer remembers the bytes received so far.
use vstd::prelude::*;

use crate::api::{CmdApi, CommandReq, QueryApi, QueryReq, MAX_BUFFER_LEN};
use crate::envelope::{decode_chunk, encode_chunk, envelope_bytes, parse_envelope, DataChunk};
use crate::error::BleError;
use crate::peer_table::PeerTable;

verus! {

/// What a peer's cursors hold: bytes still to send per query kind, bytes received
/// so far per command kind.
pub struct CursorView {
    pub reader: Map<QueryApi, nat>,
    pub writer: Map<CmdApi, Seq<u8>>,
}

/// A peer with no transfer in flight.
pub open spec fn idle_cursor() -> CursorView {
    CursorView { reader: Map::empty(), writer: Map::empty() }
}

/// The cursors of `addr`, or idle ones if the peer is unknown.
pub open spec fn cursor_or_idle(m: Map<Seq<char>, CursorView>, addr: Seq<char>) -> CursorView {
    if m.contains_key(addr) {
        m[addr]
    } else {
        idle_cursor()
    }
}

/// Bytes still to send when a call comes: what the cursor holds, or the whole
/// message when no transfer is in flight; never more than the message.
pub open spec fn start_remaining(stored: Option<nat>, len: nat) -> nat {
    match stored {
        Some(r) => if r <= len {
            r
        } else {
            len
        },
        None => len,
    }
}

/// The next fragment of `data` when `remaining` bytes are still to send and a
/// fragment may carry `budget` bytes: the count left after it, and the fragment.
pub open spec fn next_chunk(data: Seq<u8>, remaining: nat, budget: nat) -> (nat, Seq<u8>) {
    let take = if budget < remaining {
        budget
    } else {
        remaining
    };
    let start = data.len() - remaining;
    ((remaining - take) as nat, data.subrange(start, start + take))
}

/// One read step on a peer's cursors, for a transport budget of `budget` bytes of
/// which `overhead` go to the envelope: the cursors after it, and the fragment
/// sent. The transfer ends when nothing remains, or is dropped when the transport
/// budget exceeds the reassembly ceiling.
pub open spec fn read_step(cur: CursorView, kind: QueryApi, data: Seq<u8>, budget: nat, overhead: nat) -> (
    CursorView,
    (nat, Seq<u8>),
) {
    let rem = start_remaining(cur.reader.get(kind), data.len());
    let chunk = next_chunk(data, rem, (budget - overhead) as nat);
    let reader = if chunk.0 == 0 || budget > MAX_BUFFER_LEN {
        cur.reader.remove(kind)
    } else {
        cur.reader.insert(kind, chunk.0)
    };
    (CursorView { reader, writer: cur.writer }, chunk)
}

/// One write step on a peer's cursors, for a fragment `d` after which `r` bytes
/// remain: the cursors after it, and the whole message once it is complete. A
/// message that would outgrow the ceiling is dropped.
pub open spec fn write_step(cur: CursorView, kind: CmdApi, r: nat, d: Seq<u8>) -> (
    CursorView,
    Option<Seq<u8>>,
) {
    let acc = match cur.writer.get(kind) {
        Some(b) => b,
        None => Seq::empty(),
    };
    if acc.len() + d.len() > MAX_BUFFER_LEN {
        (CursorView { reader: cur.reader, writer: cur.writer.remove(kind) }, None)
    } else if r == 0 {
        (CursorView { reader: cur.reader, writer: cur.writer.remove(kind) }, Some(acc + d))
    } else {
        (CursorView { reader: cur.reader, writer: cur.writer.insert(kind, acc + d) }, None)
    }
}

/// The transfer cursors of one peer.
pub struct BufferCursor {
    host_info_read: Option<usize>,
    sdp_answer_read: Option<usize>,
    disconnected_write: Option<Vec<u8>>,
    register_write: Option<Vec<u8>>,
    sdp_offer_write: Option<Vec<u8>>,
}

impl BufferCursor {
    closed spec fn read_slot(&self, k: QueryApi) -> Option<usize> {
        match k {
            QueryApi::HostInfo => self.host_info_read,
            QueryApi::SdpAnswer => self.sdp_answer_read,
        }
    }

    closed spec fn write_slot(&self, k: CmdApi) -> Option<Vec<u8>> {
        match k {
            CmdApi::MobileDisconnected => self.disconnected_write,
            CmdApi::RegisterMobile => self.register_write,
            CmdApi::SdpOffer => self.sdp_offer_write,
        }
    }

    fn idle() -> (r: Self)
        ensures
            r@ == idle_cursor(),
    {
        let r = BufferCursor {
            host_info_read: None,
            sdp_answer_read: None,
            disconnected_write: None,
            register_write: None,
            sdp_offer_write: None,
        };
        proof {
            assert(r@.reader =~= Map::empty());
            assert(r@.writer =~= Map::empty());
        }
        r
    }

    fn remaining(&self, k: QueryApi) -> (r: Option<usize>)
        ensures
            match r {
                Some(v) => self@.reader.get(k) == Some(v as nat),
                None => self@.reader.get(k) is None,
            },
    {
        match k {
            QueryApi::HostInfo => self.host_info_read,
            QueryApi::SdpAnswer => self.sdp_answer_read,
        }
    }

    fn set_remaining(&mut self, k: QueryApi, v: Option<usize>)
        ensures
            final(self)@.writer == old(self)@.writer,
            final(self)@.reader == match v {
                Some(n) => old(self)@.reader.insert(k, n as nat),
                None => old(self)@.reader.remove(k),
            },
    {
        match k {
            QueryApi::HostInfo => self.host_info_read = v,
            QueryApi::SdpAnswer => self.sdp_answer_read = v,
        }
        proof {
            assert(self@.writer =~= old(self)@.writer);
            match v {
                Some(n) => assert(self@.reader =~= old(self)@.reader.insert(k, n as nat)),
                None => assert(self@.reader =~= old(self)@.reader.remove(k)),
            }
        }
    }

    fn take_received(&mut self, k: CmdApi) -> (r: Vec<u8>)
        ensures
            final(self)@.reader == old(self)@.reader,
            final(self)@.writer == old(self)@.writer.remove(k),
            r@ == match old(self)@.writer.get(k) {
                Some(b) => b,
                None => Seq::empty(),
            },
    {
        let slot = match k {
            CmdApi::MobileDisconnected => self.disconnected_write.take(),
            CmdApi::RegisterMobile => self.register_write.take(),
            CmdApi::SdpOffer => self.sdp_offer_write.take(),
        };
        proof {
            assert(self@.reader =~= old(self)@.reader);
            assert(self@.writer =~= old(self)@.writer.remove(k));
        }
        match slot {
            Some(b) => b,
            None => Vec::new(),
        }
    }

    fn put_received(&mut self, k: CmdApi, b: Vec<u8>)
        ensures
            final(self)@.reader == old(self)@.reader,
            final(self)@.writer == old(self)@.writer.insert(k, b@),
    {
        match k {
            CmdApi::MobileDisconnected => self.disconnected_write = Some(b),
            CmdApi::RegisterMobile => self.register_write = Some(b),
            CmdApi::SdpOffer => self.sdp_offer_write = Some(b),
        }
        proof {
            assert(self@.reader =~= old(self)@.reader);
            assert(self@.writer =~= old(self)@.writer.insert(k, b@));
        }
    }
}

impl View for BufferCursor {
    type V = CursorView;

    closed spec fn view(&self) -> CursorView {
        CursorView {
            reader: Map::new(
                |k: QueryApi| self.read_slot(k) is Some,
                |k: QueryApi| self.read_slot(k)->Some_0 as nat,
            ),
            writer: Map::new(
                |k: CmdApi| self.write_slot(k) is Some,
                |k: CmdApi| self.write_slot(k)->Some_0@,
            ),
        }
    }
}

/// Transfer cursors of every peer, and the fixed size of an empty envelope.
pub struct MobileBufferMap {
    mobile_buffer_status: PeerTable<BufferCursor>,
    chunk_len: usize,
}

impl View for MobileBufferMap {
    type V = Map<Seq<char>, CursorView>;

    closed spec fn view(&self) -> Map<Seq<char>, CursorView> {
        self.mobile_buffer_status@.map_values(|c: BufferCursor| c@)
    }
}

impl MobileBufferMap {
    pub closed spec fn wf(&self) -> bool {
        self.mobile_buffer_status.wf()
    }

    /// Size of an empty envelope, taken off each transport budget.
    pub closed spec fn overhead(&self) -> nat {
        self.chunk_len as nat
    }

    /// A map with no peer, for envelopes of `chunk_len` bytes of overhead.
    pub fn new(chunk_len: usize) -> (r: Self)
        ensures
            r.wf(),
            r@ == Map::<Seq<char>, CursorView>::empty(),
            r.overhead() == chunk_len,
    {
        let r = MobileBufferMap { mobile_buffer_status: PeerTable::new(), chunk_len };
        proof {
            assert(r@ =~= Map::<Seq<char>, CursorView>::empty());
        }
        r
    }

    /// Size of an empty envelope.
    pub fn chunk_len(&self) -> (r: usize)
        ensures
            r == self.overhead(),
    {
        self.chunk_len
    }

    /// Gives `addr` fresh, idle cursors, dropping any it had.
    pub fn add_mobile(&mut self, addr: &str)
        requires
            old(self).wf(),
        ensures
            final(self).wf(),
            final(self).overhead() == old(self).overhead(),
            final(self)@ == old(self)@.insert(addr@, idle_cursor()),
    {
        let c = BufferCursor::idle();
        self.mobile_buffer_status.set(addr.to_owned(), c);
        proof {
            assert(self@ =~= old(self)@.insert(addr@, idle_cursor()));
        }
    }

    /// Whether `addr` has cursors.
    pub fn contains_mobile(&self, addr: &str) -> (r: bool)
        requires
            self.wf(),
        ensures
            r == self@.contains_key(addr@),
    {
        self.mobile_buffer_status.contains(&addr.to_owned())
    }

    /// Drops every cursor of `addr`; nothing happens if it has none.
    pub fn remove_mobile(&mut self, addr: &str)
        requires
            old(self).wf(),
        ensures
            final(self).wf(),
            final(self).overhead() == old(self).overhead(),
            final(self)@ == old(self)@.remove(addr@),
    {
        let _ = self.mobile_buffer_status.remove(&addr.to_owned());
        proof {
            assert(self@ =~= old(self)@.remove(addr@));
        }
    }

    /// Takes the cursors of `addr` out of the table, idle ones if it has none.
    fn take_cursors(&mut self, addr: &String) -> (r: BufferCursor)
        requires
            old(self).wf(),
        ensures
            final(self).wf(),
            final(self).overhead() == old(self).overhead(),
            final(self)@ == old(self)@.remove(addr@),
            r@ == cursor_or_idle(old(self)@, addr@),
    {
        let r = match self.mobile_buffer_status.remove(addr) {
            Some(c) => c,
            None => BufferCursor::idle(),
        };
        proof {
            assert(self@ =~= old(self)@.remove(addr@));
        }
        r
    }

    /// Puts the cursors of `addr` back.
    fn put_cursors(&mut self, addr: String, c: BufferCursor)
        requires
            old(self).wf(),
            !old(self)@.contains_key(addr@),
        ensures
            final(self).wf(),
            final(self).overhead() == old(self).overhead(),
            final(self)@ == old(self)@.insert(addr@, c@),
    {
        let ghost key = addr@;
        let ghost cv = c@;
        self.mobile_buffer_status.insert_new(addr, c);
        proof {
            assert(self@ =~= old(self)@.insert(key, cv));
        }
    }

    /// Produces the next fragment of `data` for the read transfer of `query`'s kind
    /// to `addr`, starting one if none is in flight. A fragment carries at most the
    /// request's budget less the envelope overhead; a request whose budget exceeds
    /// the reassembly ceiling gets its fragment and ends the transfer.
    pub fn next_fragment(&mut self, addr: &str, query: &QueryReq, data: &[u8]) -> (r: DataChunk)
        requires
            old(self).wf(),
            query.resp_buffer_len >= old(self).overhead(),
        ensures
            final(self).wf(),
            final(self).overhead() == old(self).overhead(),
            ({
                let step = read_step(
                    cursor_or_idle(old(self)@, addr@),
                    query.query_type,
                    data@,
                    query.resp_buffer_len as nat,
                    old(self).overhead(),
                );
                &&& final(self)@ == old(self)@.insert(addr@, step.0)
                &&& r.r == step.1.0
                &&& r.d@ == step.1.1
            }),
    {
        let budget = query.resp_buffer_len - self.chunk_len;
        let key = addr.to_owned();
        let mut cur = self.take_cursors(&key);
        let len = data.len();
        let rem = match cur.remaining(query.query_type) {
            Some(r) => if r <= len {
                r
            } else {
                len
            },
            None => len,
        };
        let take = if budget < rem {
            budget
        } else {
            rem
        };
        let start = len - rem;
        let mut d: Vec<u8> = Vec::new();
        let mut i: usize = 0;
        while i < take
            invariant
                i <= take <= rem <= len,
                len == data@.len(),
                start == len - rem,
                d@ == data@.subrange(start as int, start + i),
            decreases take - i,
        {
            d.push(data[start + i]);
            proof {
                assert(d@ =~= data@.subrange(start as int, start + i + 1));
            }
            i = i + 1;
        }
        let left = rem - take;
        if left == 0 || query.resp_buffer_len > MAX_BUFFER_LEN {
            cur.set_remaining(query.query_type, None);
        } else {
            cur.set_remaining(query.query_type, Some(left));
        }
        self.put_cursors(key, cur);
        proof {
            let step = read_step(
                cursor_or_idle(old(self)@, addr@),
                query.query_type,
                data@,
                query.resp_buffer_len as nat,
                self.chunk_len as nat,
            );
            assert(self@ =~= old(self)@.insert(addr@, step.0));
        }
        DataChunk { r: left, d }
    }

    /// Encoded form of [`Self::next_fragment`].
    pub fn get_next_data_chunk(&mut self, addr: &str, query: &QueryReq, data: &[u8]) -> (r: Vec<u8>)
        requires
            old(self).wf(),
            query.resp_buffer_len >= old(self).overhead(),
            data@.len() < 0x1_0000_0000 || query.resp_buffer_len - old(self).overhead() < 0x1_0000_0000,
        ensures
            final(self).wf(),
            final(self).overhead() == old(self).overhead(),
            ({
                let step = read_step(
                    cursor_or_idle(old(self)@, addr@),
                    query.query_type,
                    data@,
                    query.resp_buffer_len as nat,
                    old(self).overhead(),
                );
                &&& final(self)@ == old(self)@.insert(addr@, step.0)
                &&& r@ == envelope_bytes(step.1.0, step.1.1)
            }),
    {
        let chunk = self.next_fragment(addr, query, data);
        encode_chunk(&chunk)
    }

    /// Adds a received fragment to the write transfer of `kind` from `addr`,
    /// starting one if none is in flight. Gives the whole message once the fragment
    /// with nothing remaining after it has come; drops the transfer, and gives
    /// nothing, where the message would outgrow the ceiling.
    pub fn append_fragment(&mut self, addr: &str, kind: CmdApi, chunk: DataChunk) -> (r: Option<Vec<u8>>)
        requires
            old(self).wf(),
        ensures
            final(self).wf(),
            final(self).overhead() == old(self).overhead(),
            ({
                let step = write_step(cursor_or_idle(old(self)@, addr@), kind, chunk.r as nat, chunk.d@);
                &&& final(self)@ == old(self)@.insert(addr@, step.0)
                &&& match r {
                    Some(b) => step.1 == Some(b@),
                    None => step.1 is None,
                }
            }),
    {
        let key = addr.to_owned();
        let mut cur = self.take_cursors(&key);
        let ghost cur0 = cur@;
        let mut acc = cur.take_received(kind);
        let DataChunk { r, d } = chunk;
        let result;
        if d.len() > MAX_BUFFER_LEN || acc.len() > MAX_BUFFER_LEN - d.len() {
            result = None;
        } else {
            let mut i: usize = 0;
            let ghost acc0 = acc@;
            while i < d.len()
                invariant
                    i <= d@.len(),
                    acc@ == acc0 + d@.subrange(0, i as int),
                decreases d@.len() - i,
            {
                acc.push(d[i]);
                proof {
                    assert(acc@ =~= acc0 + d@.subrange(0, i + 1));
                }
                i = i + 1;
            }
            proof {
                assert(d@.subrange(0, d@.len() as int) =~= d@);
            }
            if r == 0 {
                result = Some(acc);
            } else {
                cur.put_received(kind, acc);
                proof {
                    assert(cur@.writer =~= cur0.writer.insert(kind, acc0 + d@));
                }
                result = None;
            }
        }
        proof {
            let step = write_step(cur0, kind, r as nat, d@);
            assert(cur@.reader == step.0.reader);
            assert(cur@.writer =~= step.0.writer);
        }
        self.put_cursors(key, cur);
        proof {
            let step = write_step(cursor_or_idle(old(self)@, addr@), kind, r as nat, d@);
            assert(self@ =~= old(self)@.insert(addr@, step.0));
        }
        result
    }

    /// Decodes the envelope of `cmd` and adds it to the write transfer of its kind
    /// from `addr`; bytes that are not one envelope are refused and change nothing.
    pub fn get_complete_buffer(&mut self, addr: &str, cmd: &CommandReq) -> (r: Result<Option<Vec<u8>>, BleError>)
        requires
            old(self).wf(),
        ensures
            final(self).wf(),
            final(self).overhead() == old(self).overhead(),
            match parse_envelope(cmd.payload@) {
                Some((rem, d)) if rem <= usize::MAX => {
                    let step = write_step(cursor_or_idle(old(self)@, addr@), cmd.cmd_type, rem, d);
                    &&& final(self)@ == old(self)@.insert(addr@, step.0)
                    &&& match r {
                        Ok(Some(b)) => step.1 == Some(b@),
                        Ok(None) => step.1 is None,
                        Err(_) => false,
                    }
                },
                _ => r == Err::<Option<Vec<u8>>, BleError>(BleError::InvalidEnvelope) && final(self)@ == old(self)@,
            },
    {
        match decode_chunk(cmd.payload.as_slice()) {
            Ok(chunk) => Ok(self.append_fragment(addr, cmd.cmd_type, chunk)),
            Err(e) => Err(e),
        }
    }
}

/// The fragments that successive reads of one kind send, the i-th read with
/// transport budget `budgets[i]` of which `overhead` bytes go to the envelope, up
/// to and including the first one after which nothing remains.
pub open spec fn read_run(cur: CursorView, kind: QueryApi, data: Seq<u8>, budgets: Seq<nat>, overhead: nat) -> Seq<(nat, Seq<u8>)>
    decreases budgets.len(),
{
    if budgets.len() == 0 {
        Seq::empty()
    } else {
        let step = read_step(cur, kind, data, budgets[0], overhead);
        if step.1.0 == 0 {
            seq![step.1]
        } else {
            seq![step.1] + read_run(step.0, kind, data, budgets.drop_first(), overhead)
        }
    }
}

/// The fragments of a run, joined in order.
pub open spec fn joined(s: Seq<(nat, Seq<u8>)>) -> Seq<u8>
    decreases s.len(),
{
    if s.len() == 0 {
        Seq::empty()
    } else {
        s[0].1 + joined(s.drop_first())
    }
}

/// What successive writes of one kind give back, one per envelope of `s`, in order.
pub open spec fn write_run(cur: CursorView, kind: CmdApi, s: Seq<(nat, Seq<u8>)>) -> Seq<Option<Seq<u8>>>
    decreases s.len(),
{
    if s.len() == 0 {
        Seq::empty()
    } else {
        let step = write_step(cur, kind, s[0].0, s[0].1);
        seq![step.1] + write_run(step.0, kind, s.drop_first())
    }
}

/// Every transport budget leaves at least one byte for the fragment and stays
/// within the ceiling.
pub open spec fn budgets_ok(budgets: Seq<nat>, overhead: nat) -> bool {
    forall|i: int| 0 <= i < budgets.len() ==> overhead < #[trigger] budgets[i] <= MAX_BUFFER_LEN
}

/// Only the last envelope of `s` has nothing remaining after it.
pub open spec fn ends_once(s: Seq<(nat, Seq<u8>)>) -> bool {
    &&& s.len() >= 1
    &&& s.last().0 == 0
    &&& forall|i: int| 0 <= i < s.len() - 1 ==> #[trigger] s[i].0 > 0
}

proof fn lemma_read_run_suffix(cur: CursorView, kind: QueryApi, data: Seq<u8>, budgets: Seq<nat>, overhead: nat)
    requires
        budgets_ok(budgets, overhead),
        budgets.len() >= start_remaining(cur.reader.get(kind), data.len()),
        budgets.len() >= 1,
    ensures
        ({
            let rem = start_remaining(cur.reader.get(kind), data.len());
            let s = read_run(cur, kind, data, budgets, overhead);
            &&& ends_once(s)
            &&& joined(s) == data.subrange(data.len() - rem, data.len() as int)
            &&& s.len() <= budgets.len()
            &&& forall|i: int| 0 <= i < s.len() ==> #[trigger] s[i].1.len() == if budgets[i] - overhead < rem
                - joined(s.take(i)).len() {
                budgets[i] - overhead
            } else {
                rem - joined(s.take(i)).len()
            }
            &&& forall|i: int| 0 <= i < s.len() ==> #[trigger] s[i].0 == rem - joined(s.take(i + 1)).len()
        }),
    decreases budgets.len(),
{
    let len = data.len();
    let rem = start_remaining(cur.reader.get(kind), len);
    let step = read_step(cur, kind, data, budgets[0], overhead);
    let c = step.1;
    let s = read_run(cur, kind, data, budgets, overhead);
    assert(overhead < budgets[0] <= MAX_BUFFER_LEN);
    assert(s.take(0) =~= Seq::<(nat, Seq<u8>)>::empty());
    assert(joined(Seq::<(nat, Seq<u8>)>::empty()) == Seq::<u8>::empty());
    if c.0 == 0 {
        assert(s == seq![c]);
        assert(s.drop_first() =~= Seq::<(nat, Seq<u8>)>::empty());
        assert(joined(s.drop_first()) == Seq::<u8>::empty());
        assert(joined(s) =~= c.1);
        assert(s.take(1) =~= s);
    } else {
        let rest = budgets.drop_first();
        let tail = read_run(step.0, kind, data, rest, overhead);
        assert(step.0.reader.get(kind) == Some(c.0));
        assert(budgets_ok(rest, overhead)) by {
            assert forall|i: int| 0 <= i < rest.len() implies overhead < #[trigger] rest[i] <= MAX_BUFFER_LEN by {
                assert(rest[i] == budgets[i + 1]);
            }
        }
        lemma_read_run_suffix(step.0, kind, data, rest, overhead);
        assert(s == seq![c] + tail);
        assert(s.drop_first() =~= tail);
        assert(joined(s) == c.1 + joined(tail));
        assert(joined(s) =~= data.subrange(len - rem, len as int));
        assert forall|i: int| 0 <= i < s.len() - 1 implies #[trigger] s[i].0 > 0 by {
            if i > 0 {
                assert(s[i] == tail[i - 1]);
            }
        }
        assert(s.last() == tail.last());
        assert forall|i: int| 0 <= i < s.len() implies joined(#[trigger] s.take(i + 1)).len() == c.1.len()
            + joined(tail.take(i)).len() by {
            let t = s.take(i + 1);
            assert(t[0] == c);
            assert(t.drop_first() =~= tail.take(i));
        }
        assert forall|i: int| 0 <= i < s.len() implies #[trigger] s[i].0 == rem - joined(s.take(i + 1)).len() by {
            if i > 0 {
                assert(s[i] == tail[i - 1]);
                assert(joined(s.take(i + 1)).len() == c.1.len() + joined(tail.take(i)).len());
            } else {
                assert(joined(s.take(1)).len() == c.1.len() + joined(tail.take(0)).len());
                assert(tail.take(0) =~= Seq::<(nat, Seq<u8>)>::empty());
            }
        }
        assert forall|i: int| 0 <= i < s.len() implies #[trigger] s[i].1.len() == if budgets[i] - overhead < rem
            - joined(s.take(i)).len() {
            budgets[i] - overhead
        } else {
            rem - joined(s.take(i)).len()
        } by {
            if i > 0 {
                assert(s[i] == tail[i - 1]);
                assert(rest[i - 1] == budgets[i]);
                assert(joined(s.take(i)).len() == c.1.len() + joined(tail.take(i - 1)).len());
            }
        }
    }
}

/// Reading a message with transport budgets that may change from call to call,
/// each leaving at least one byte for the fragment and at most the ceiling, and at
/// least as many calls as the message has bytes (one for an empty message): the
/// transfer ends within those calls, every fragment is as long as its budget less
/// the overhead allows of what remains, the remaining count after each fragment is
/// the message length less all bytes sent so far, only the last fragment has
/// nothing remaining after it, and the fragments joined in order are the message.
pub proof fn lemma_read_run_rebuilds(cur: CursorView, kind: QueryApi, data: Seq<u8>, budgets: Seq<nat>, overhead: nat)
    requires
        !cur.reader.contains_key(kind),
        budgets_ok(budgets, overhead),
        budgets.len() >= data.len(),
        budgets.len() >= 1,
    ensures
        ({
            let s = read_run(cur, kind, data, budgets, overhead);
            &&& ends_once(s)
            &&& joined(s) == data
            &&& s.len() <= budgets.len()
            &&& forall|i: int| 0 <= i < s.len() ==> #[trigger] s[i].1.len() == if budgets[i] - overhead < data.len()
                - joined(s.take(i)).len() {
                budgets[i] - overhead
            } else {
                data.len() - joined(s.take(i)).len()
            }
            &&& forall|i: int| 0 <= i < s.len() ==> #[trigger] s[i].0 == data.len() - joined(s.take(i + 1)).len()
        }),
{
    lemma_read_run_suffix(cur, kind, data, budgets, overhead);
    assert(data.subrange(0, data.len() as int) =~= data);
}

proof fn lemma_joined_take_step(s: Seq<(nat, Seq<u8>)>, i: int)
    requires
        0 <= i < s.len(),
    ensures
        joined(s.take(i + 1)).len() == joined(s.take(i)).len() + s[i].1.len(),
    decreases i,
{
    let t = s.take(i + 1);
    assert(t[0] == s[0]);
    if i == 0 {
        assert(s.take(0) =~= Seq::<(nat, Seq<u8>)>::empty());
        assert(t.drop_first() =~= Seq::<(nat, Seq<u8>)>::empty());
        assert(joined(Seq::<(nat, Seq<u8>)>::empty()) == Seq::<u8>::empty());
    } else {
        let r = s.drop_first();
        lemma_joined_take_step(r, i - 1);
        assert(t.drop_first() =~= r.take(i));
        assert(s.take(i)[0] == s[0]);
        assert(s.take(i).drop_first() =~= r.take(i - 1));
        assert(r[i - 1] == s[i]);
    }
}

/// Reading with one fixed transport budget `budget`, of which `overhead` bytes go
/// to the envelope: the transfer ends after `max(1, ceil(L / (budget - overhead)))`
/// fragments for a message of `L` bytes, only its last fragment has nothing
/// remaining after it, and the fragments rebuild the message.
pub proof fn lemma_fixed_budget_rebuilds(cur: CursorView, kind: QueryApi, data: Seq<u8>, budget: nat, overhead: nat)
    requires
        !cur.reader.contains_key(kind),
        overhead < budget <= MAX_BUFFER_LEN,
    ensures
        ({
            let n = if data.len() == 0 { 1 } else { data.len() };
            let f = (budget - overhead) as nat;
            let s = read_run(cur, kind, data, Seq::new(n, |i: int| budget), overhead);
            &&& ends_once(s)
            &&& joined(s) == data
            &&& s.len() == if data.len() == 0 { 1 } else { (data.len() + f - 1) / f as int }
        }),
{
    let n = if data.len() == 0 { 1 } else { data.len() };
    let f = (budget - overhead) as nat;
    let bs = Seq::new(n, |i: int| budget);
    let len = data.len();
    lemma_read_run_rebuilds(cur, kind, data, bs, overhead);
    let s = read_run(cur, kind, data, bs, overhead);
    let k: int = s.len() as int;
    // every fragment but the last carries a full budget
    assert forall|i: int| 0 <= i < k implies joined(#[trigger] s.take(i)).len() == i * f by {
        lemma_prefix_full(s, bs, overhead, len, f, i);
    }
    lemma_joined_take_step(s, k - 1);
    assert(s.take(k) =~= s);
    let before = joined(s.take(k - 1)).len();
    assert(before == (k - 1) * f);
    assert(s[k - 1].0 == 0);
    assert(joined(s.take(k)).len() == len);
    if len > 0 {
        if k >= 2 {
            lemma_joined_take_step(s, k - 2);
            assert(s[k - 2].0 > 0);
            assert(s[k - 2].0 == len - joined(s.take(k - 1)).len());
        }
        assert((k - 1) * f < len);
        assert(s[k - 1].1.len() <= f);
        assert(len <= k * f) by (nonlinear_arith)
            requires
                len == (k - 1) * f + s[k - 1].1.len(),
                s[k - 1].1.len() <= f,
        ;
        lemma_ceil_div(len as int, f as int, k as int);
    }
}

proof fn lemma_ceil_div(len: int, f: int, k: int)
    requires
        f >= 1,
        (k - 1) * f < len,
        len <= k * f,
    ensures
        (len + f - 1) / f == k,
{
    assert((len + f - 1) / f == k) by (nonlinear_arith)
        requires
            f >= 1,
            (k - 1) * f < len,
            len <= k * f,
    {
        let q = (len + f - 1) / f;
        let r = (len + f - 1) % f;
        assert(len + f - 1 == q * f + r && 0 <= r < f);
    }
}

proof fn lemma_prefix_full(s: Seq<(nat, Seq<u8>)>, bs: Seq<nat>, overhead: nat, len: nat, f: nat, i: int)
    requires
        0 <= i < s.len(),
        f == (bs[0] - overhead) as nat,
        s.len() <= bs.len(),
        forall|j: int| 0 <= j < bs.len() ==> #[trigger] bs[j] == bs[0],
        ends_once(s),
        forall|j: int| 0 <= j < s.len() ==> #[trigger] s[j].1.len() == if bs[j] - overhead < len - joined(
            s.take(j),
        ).len() {
            bs[j] - overhead
        } else {
            len - joined(s.take(j)).len()
        },
        forall|j: int| 0 <= j < s.len() ==> #[trigger] s[j].0 == len - joined(s.take(j + 1)).len(),
    ensures
        joined(s.take(i)).len() == i * f,
    decreases i,
{
    if i == 0 {
        assert(s.take(0) =~= Seq::<(nat, Seq<u8>)>::empty());
        assert(joined(Seq::<(nat, Seq<u8>)>::empty()) == Seq::<u8>::empty());
    } else {
        lemma_prefix_full(s, bs, overhead, len, f, i - 1);
        lemma_joined_take_step(s, i - 1);
        assert(s[i - 1].0 > 0);
        assert(bs[i - 1] == bs[0]);
        assert(i * f == (i - 1) * f + f) by (nonlinear_arith);
    }
}

proof fn lemma_write_run_from(cur: CursorView, kind: CmdApi, s: Seq<(nat, Seq<u8>)>, acc: Seq<u8>)
    requires
        ends_once(s),
        acc == match cur.writer.get(kind) {
            Some(b) => b,
            None => Seq::<u8>::empty(),
        },
        acc.len() + joined(s).len() <= MAX_BUFFER_LEN,
    ensures
        ({
            let out = write_run(cur, kind, s);
            &&& out.len() == s.len()
            &&& forall|i: int| 0 <= i < s.len() - 1 ==> #[trigger] out[i] is None
            &&& out.last() == Some(acc + joined(s))
        }),
    decreases s.len(),
{
    let d0 = s[0].1;
    let rest = s.drop_first();
    let step = write_step(cur, kind, s[0].0, d0);
    let out = write_run(cur, kind, s);
    assert(joined(s) == d0 + joined(rest));
    if s.len() == 1 {
        assert(s[0].0 == 0);
        assert(rest =~= Seq::<(nat, Seq<u8>)>::empty());
        assert(joined(rest) == Seq::<u8>::empty());
        assert(joined(s) =~= d0);
        assert(write_run(step.0, kind, rest) == Seq::<Option<Seq<u8>>>::empty());
        assert(out =~= seq![step.1]);
    } else {
        assert(s[0].0 > 0);
        assert(ends_once(rest)) by {
            assert(rest.last() == s.last());
            assert forall|i: int| 0 <= i < rest.len() - 1 implies #[trigger] rest[i].0 > 0 by {
                assert(rest[i] == s[i + 1]);
            }
        }
        lemma_write_run_from(step.0, kind, rest, acc + d0);
        let tail = write_run(step.0, kind, rest);
        assert(out == seq![step.1] + tail);
        assert forall|i: int| 0 <= i < s.len() - 1 implies #[trigger] out[i] is None by {
            if i > 0 {
                assert(out[i] == tail[i - 1]);
            }
        }
        assert(out.last() == tail.last());
        assert(acc + d0 + joined(rest) =~= acc + joined(s));
    }
}

/// Handing the fragments of a read transfer, in order, to the write side of a peer
/// with no write transfer of that kind in flight: every call but the last gives
/// nothing, and the last gives back the whole message, which must fit within the
/// ceiling.
pub proof fn lemma_reassembly_returns_once(
    rcur: CursorView,
    qkind: QueryApi,
    data: Seq<u8>,
    budgets: Seq<nat>,
    overhead: nat,
    wcur: CursorView,
    ckind: CmdApi,
)
    requires
        !rcur.reader.contains_key(qkind),
        !wcur.writer.contains_key(ckind),
        budgets_ok(budgets, overhead),
        budgets.len() >= data.len(),
        budgets.len() >= 1,
        data.len() <= MAX_BUFFER_LEN,
    ensures
        ({
            let s = read_run(rcur, qkind, data, budgets, overhead);
            let out = write_run(wcur, ckind, s);
            &&& out.len() == s.len()
            &&& forall|i: int| 0 <= i < out.len() - 1 ==> #[trigger] out[i] is None
            &&& out.last() == Some(data)
        }),
{
    lemma_read_run_rebuilds(rcur, qkind, data, budgets, overhead);
    let s = read_run(rcur, qkind, data, budgets, overhead);
    lemma_write_run_from(wcur, ckind, s, Seq::empty());
    assert(Seq::<u8>::empty() + joined(s) =~= data);
}

/// Dropping a peer's cursors twice leaves the same table as dropping them once,
/// and dropping those of an unknown peer changes nothing.
pub proof fn lemma_remove_mobile_idempotent(m: Map<Seq<char>, CursorView>, addr: Seq<char>)
    ensures
        m.remove(addr).remove(addr) == m.remove(addr),
        !m.contains_key(addr) ==> m.remove(addr) == m,
{
    assert(m.remove(addr).remove(addr) =~= m.remove(addr));
    if !m.contains_key(addr) {
        assert(m.remove(addr) =~= m);
    }
}

} // verus!
