//! Fragmentation of a published payload, in one pass, for every subscriber of a topic.
use vstd::prelude::*;

use crate::envelope::{encode_chunk, envelope_bytes, DataChunk};
use crate::mobile_buffer::{ends_once, joined, next_chunk};

verus! {

/// The envelopes that carry a payload when `remaining` bytes of it are still to
/// send, each fragment at most `size` bytes; a payload with nothing to send still
/// gets one, empty, envelope.
pub open spec fn publish_run(data: Seq<u8>, remaining: nat, size: nat) -> Seq<(nat, Seq<u8>)>
    decreases remaining,
{
    let c = next_chunk(data, remaining, size);
    if c.0 == 0 || size == 0 || remaining == 0 {
        seq![c]
    } else {
        seq![c] + publish_run(data, c.0, size)
    }
}

/// Splits `payload` into encoded envelopes of at most `size` bytes of fragment each,
/// in order, as the read path would fragment it with that budget.
pub fn publish_chunks(payload: &[u8], size: usize) -> (r: Vec<Vec<u8>>)
    requires
        size >= 1,
        payload@.len() < 0x1_0000_0000 || size < 0x1_0000_0000,
    ensures
        ({
            let run = publish_run(payload@, payload@.len(), size as nat);
            &&& r@.len() == run.len()
            &&& forall|i: int| 0 <= i < run.len() ==> #[trigger] r@[i]@ == envelope_bytes(run[i].0, run[i].1)
        }),
{
    let len = payload.len();
    let ghost total = publish_run(payload@, len as nat, size as nat);
    let mut out: Vec<Vec<u8>> = Vec::new();
    let mut rem: usize = len;
    loop
        invariant
            rem <= len == payload@.len(),
            size >= 1,
            len < 0x1_0000_0000 || size < 0x1_0000_0000,
            total == publish_run(payload@, len as nat, size as nat),
            ({
                let tail = publish_run(payload@, rem as nat, size as nat);
                &&& out@.len() + tail.len() == total.len()
                &&& forall|i: int| 0 <= i < out@.len() ==> #[trigger] out@[i]@ == envelope_bytes(total[i].0, total[i].1)
                &&& forall|i: int| 0 <= i < tail.len() ==> #[trigger] tail[i] == total[out@.len() + i]
            }),
        decreases rem,
    {
        let take = if size < rem {
            size
        } else {
            rem
        };
        let start = len - rem;
        let mut d: Vec<u8> = Vec::new();
        let mut i: usize = 0;
        while i < take
            invariant
                i <= take <= rem <= len == payload@.len(),
                start == len - rem,
                d@ == payload@.subrange(start as int, start + i),
            decreases take - i,
        {
            d.push(payload[start + i]);
            proof {
                assert(d@ =~= payload@.subrange(start as int, start + i + 1));
            }
            i = i + 1;
        }
        let left = rem - take;
        let chunk = DataChunk { r: left, d };
        let bytes = encode_chunk(&chunk);
        let ghost tail = publish_run(payload@, rem as nat, size as nat);
        let ghost n = out@.len();
        proof {
            assert(tail[0] == next_chunk(payload@, rem as nat, size as nat));
            assert(tail[0] == total[n as int]);
            assert(chunk.r as nat == tail[0].0 && chunk.d@ == tail[0].1);
        }
        let ghost before = out@;
        out.push(bytes);
        proof {
            assert forall|i: int| 0 <= i < out@.len() implies #[trigger] out@[i]@ == envelope_bytes(total[i].0, total[i].1) by {
                if i < n {
                    assert(out@[i] == before[i]);
                }
            }
        }
        if left == 0 {
            proof {
                assert(tail == seq![tail[0]]);
            }
            return out;
        }
        proof {
            let next = publish_run(payload@, left as nat, size as nat);
            assert(tail == seq![tail[0]] + next);
            assert forall|i: int| 0 <= i < next.len() implies #[trigger] next[i] == total[out@.len() + i] by {
                assert(next[i] == tail[i + 1]);
            }
        }
        rem = left;
    }
}

/// The envelopes of a published payload rebuild it when joined in order, and only
/// the last one has nothing remaining after it.
pub proof fn lemma_publish_run_rebuilds(data: Seq<u8>, size: nat)
    requires
        size >= 1,
    ensures
        ends_once(publish_run(data, data.len(), size)),
        joined(publish_run(data, data.len(), size)) == data,
{
    lemma_publish_suffix(data, data.len(), size);
    assert(data.subrange(0, data.len() as int) =~= data);
}

proof fn lemma_publish_suffix(data: Seq<u8>, rem: nat, size: nat)
    requires
        size >= 1,
        rem <= data.len(),
    ensures
        ends_once(publish_run(data, rem, size)),
        joined(publish_run(data, rem, size)) == data.subrange(data.len() - rem, data.len() as int),
    decreases rem,
{
    let c = next_chunk(data, rem, size);
    let s = publish_run(data, rem, size);
    if c.0 == 0 || rem == 0 {
        assert(s == seq![c]);
        assert(s.drop_first() =~= Seq::<(nat, Seq<u8>)>::empty());
        assert(joined(s.drop_first()) == Seq::<u8>::empty());
        assert(joined(s) =~= data.subrange(data.len() - rem, data.len() as int));
    } else {
        let tail = publish_run(data, c.0, size);
        lemma_publish_suffix(data, c.0, size);
        assert(s == seq![c] + tail);
        assert(s.drop_first() =~= tail);
        assert(joined(s) =~= data.subrange(data.len() - rem, data.len() as int));
        assert forall|i: int| 0 <= i < s.len() - 1 implies #[trigger] s[i].0 > 0 by {
            if i > 0 {
                assert(s[i] == tail[i - 1]);
            }
        }
        assert(s.last() == tail.last());
    }
}

/// End of the `i`-th fragment of a payload of `len` bytes cut into `size`-byte pieces.
pub open spec fn piece_end(i: int, size: nat, len: nat) -> int {
    if (i + 1) * size < len {
        (i + 1) * size
    } else {
        len as int
    }
}

proof fn lemma_publish_closed_suffix(data: Seq<u8>, rem: nat, size: nat, base: nat)
    requires
        size >= 1,
        rem <= data.len(),
        base + rem == data.len(),
        base % size == 0,
    ensures
        forall|i: int| 0 <= i < publish_run(data, rem, size).len() ==> #[trigger] publish_run(data, rem, size)[i] == (
            (data.len() - piece_end((base / size) as int + i, size, data.len())) as nat,
            data.subrange(base + i * size, piece_end((base / size) as int + i, size, data.len())),
        ),
    decreases rem,
{
    let len = data.len();
    let c = next_chunk(data, rem, size);
    let s = publish_run(data, rem, size);
    let k = (base / size) as int;
    assert(base == k * size) by (nonlinear_arith)
        requires
            size >= 1,
            base % size == 0,
            k == (base / size) as int,
    {
        assert(base == ((base / size) as int) * size + base % size);
    }
    assert((k + 1) * size == base + size) by (nonlinear_arith)
        requires
            base == k * size,
    ;
    if c.0 == 0 || rem == 0 {
        assert(s == seq![c]);
        assert forall|i: int| 0 <= i < s.len() implies #[trigger] s[i] == (
            (len - piece_end(k + i, size, len)) as nat,
            data.subrange(base + i * size, piece_end(k + i, size, len)),
        ) by {
            assert(i == 0);
        }
    } else {
        let nb = base + size;
        let tail = publish_run(data, c.0, size);
        assert(nb % size == 0) by (nonlinear_arith)
            requires
                nb == (k + 1) * size,
                size >= 1,
        {
            assert(((k + 1) * size) % (size as int) == 0);
        }
        assert((nb / size) as int == k + 1) by (nonlinear_arith)
            requires
                nb == (k + 1) * size,
                size >= 1,
        ;
        lemma_publish_closed_suffix(data, c.0, size, nb as nat);
        assert(s == seq![c] + tail);
        assert forall|i: int| 0 <= i < s.len() implies #[trigger] s[i] == (
            (len - piece_end(k + i, size, len)) as nat,
            data.subrange(base + i * size, piece_end(k + i, size, len)),
        ) by {
            if i > 0 {
                assert(s[i] == tail[i - 1]);
                assert(nb + (i - 1) * size == base + i * size) by (nonlinear_arith)
                    requires
                        nb == base + size,
                ;
                assert(k + 1 + (i - 1) == k + i);
            }
        }
    }
}

/// The `i`-th envelope of a published payload of `L` bytes, cut into pieces of
/// `size` bytes, carries bytes `i * size` up to `min((i + 1) * size, L)` and
/// says that `L - min((i + 1) * size, L)` bytes remain after it.
pub proof fn lemma_publish_run_closed_form(data: Seq<u8>, size: nat)
    requires
        size >= 1,
    ensures
        forall|i: int|
            0 <= i < publish_run(data, data.len(), size).len() ==> #[trigger] publish_run(data, data.len(), size)[i]
                == ((data.len() - piece_end(i, size, data.len())) as nat, data.subrange(
                i * size,
                piece_end(i, size, data.len()),
            )),
{
    assert(0nat % size == 0) by (nonlinear_arith)
        requires
            size >= 1,
    ;
    assert((0nat / size) as int == 0) by (nonlinear_arith)
        requires
            size >= 1,
    ;
    lemma_publish_closed_suffix(data, data.len(), size, 0);
}

} // verus!
