//! Wire form of one fragment: a MessagePack map `{"r": remaining, "d": [bytes]}`.
//!
//! Encoding writes the map with `r` first; the remaining count and every byte of
//! the fragment are MessagePack integers in their shortest unsigned form, and the
//! fragment is a MessagePack array.
//!
//! Decoding also takes the keys in the order `d`, `r`, and the two-item array
//! `[remaining, [bytes]]`; it takes every integer in any unsigned width, or in any
//! signed width when its value is not negative. It takes nothing else: no other
//! map or key form, no binary fragment, no extra or repeated field.
use vstd::prelude::*;

use crate::error::BleError;

verus! {

/// One fragment of a larger message, with the count of bytes still to come after it.
#[derive(Debug, Clone, PartialEq, Eq)]
pub struct DataChunk {
    /// Bytes of the message that remain after this fragment.
    pub r: usize,
    /// The fragment itself.
    pub d: Vec<u8>,
}

/// `256^k`.
pub open spec fn pow256(k: nat) -> nat
    decreases k,
{
    if k == 0 {
        1
    } else {
        256 * pow256((k - 1) as nat)
    }
}

/// The `w` low bytes of `n`, most significant first.
pub open spec fn be_bytes(n: nat, w: nat) -> Seq<u8>
    decreases w,
{
    if w == 0 {
        Seq::empty()
    } else {
        be_bytes(n / 256, (w - 1) as nat).push((n % 256) as u8)
    }
}

/// The number that bytes, most significant first, stand for.
pub open spec fn be_value(s: Seq<u8>) -> nat
    decreases s.len(),
{
    if s.len() == 0 {
        0
    } else {
        be_value(s.drop_last()) * 256 + s.last() as nat
    }
}

/// Shortest MessagePack form of an unsigned integer.
pub open spec fn uint_bytes(n: nat) -> Seq<u8> {
    if n < 0x80 {
        seq![n as u8]
    } else if n < 0x100 {
        seq![0xccu8] + be_bytes(n, 1)
    } else if n < 0x1_0000 {
        seq![0xcdu8] + be_bytes(n, 2)
    } else if n < 0x1_0000_0000 {
        seq![0xceu8] + be_bytes(n, 4)
    } else {
        seq![0xcfu8] + be_bytes(n, 8)
    }
}

/// Shortest MessagePack header of an array of `n` items.
pub open spec fn array_header(n: nat) -> Seq<u8> {
    if n < 16 {
        seq![(0x90 + n) as u8]
    } else if n < 0x1_0000 {
        seq![0xdcu8] + be_bytes(n, 2)
    } else {
        seq![0xddu8] + be_bytes(n, 4)
    }
}

/// The items of a byte array, each as a MessagePack unsigned integer.
pub open spec fn items_bytes(d: Seq<u8>) -> Seq<u8>
    decreases d.len(),
{
    if d.len() == 0 {
        Seq::empty()
    } else {
        items_bytes(d.drop_last()) + uint_bytes(d.last() as nat)
    }
}

/// The encoded envelope.
pub open spec fn envelope_bytes(r: nat, d: Seq<u8>) -> Seq<u8> {
    seq![0x82u8, 0xa1u8, 0x72u8] + uint_bytes(r) + seq![0xa1u8, 0x64u8] + array_header(d.len())
        + items_bytes(d)
}

/// Bytes that follow the marker of an integer: 0 for a positive fixint, -1 for a
/// marker that starts no integer that can be non-negative.
pub open spec fn uint_width(m: u8) -> int {
    if m < 0x80 {
        0
    } else if m == 0xcc || m == 0xd0 {
        1
    } else if m == 0xcd || m == 0xd1 {
        2
    } else if m == 0xce || m == 0xd2 {
        4
    } else if m == 0xcf || m == 0xd3 {
        8
    } else {
        -1
    }
}

/// Markers of the signed integers of one to eight bytes.
pub open spec fn is_signed_marker(m: u8) -> bool {
    0xd0 <= m <= 0xd3
}

/// Reads a non-negative integer at `p`, in any of its MessagePack widths, signed
/// or not: its value and the position after it.
pub open spec fn parse_uint(b: Seq<u8>, p: int) -> Option<(nat, int)> {
    if 0 <= p < b.len() {
        let w = uint_width(b[p]);
        if w == 0 {
            Some((b[p] as nat, p + 1))
        } else if w > 0 && p + 1 + w <= b.len() && (is_signed_marker(b[p]) ==> b[p + 1] < 0x80) {
            Some((be_value(b.subrange(p + 1, p + 1 + w)), p + 1 + w))
        } else {
            None
        }
    } else {
        None
    }
}

/// Reads an array header at `p`: the item count and the position after it.
pub open spec fn parse_array_header(b: Seq<u8>, p: int) -> Option<(nat, int)> {
    if 0 <= p < b.len() {
        let m = b[p];
        if 0x90 <= m <= 0x9f {
            Some(((m - 0x90) as nat, p + 1))
        } else if m == 0xdc && p + 3 <= b.len() {
            Some((be_value(b.subrange(p + 1, p + 3)), p + 3))
        } else if m == 0xdd && p + 5 <= b.len() {
            Some((be_value(b.subrange(p + 1, p + 5)), p + 5))
        } else {
            None
        }
    } else {
        None
    }
}

/// Reads `n` byte-sized unsigned integers from `p` on.
pub open spec fn parse_items(b: Seq<u8>, p: int, n: nat) -> Option<(Seq<u8>, int)>
    decreases n,
{
    if n == 0 {
        Some((Seq::empty(), p))
    } else {
        match parse_items(b, p, (n - 1) as nat) {
            Some((s, q)) => match parse_uint(b, q) {
                Some((v, q2)) => if v < 256 {
                    Some((s.push(v as u8), q2))
                } else {
                    None
                },
                None => None,
            },
            None => None,
        }
    }
}

/// Reads a byte array at `p`: the bytes and the position after them.
pub open spec fn parse_bytes_field(b: Seq<u8>, p: int) -> Option<(Seq<u8>, int)> {
    match parse_array_header(b, p) {
        Some((n, q)) => parse_items(b, q, n),
        None => None,
    }
}

/// The map form with `r` first.
pub open spec fn parse_r_first(b: Seq<u8>) -> Option<(nat, Seq<u8>)> {
    match parse_uint(b, 3) {
        Some((r, p1)) => if p1 + 2 <= b.len() && b[p1] == 0xa1 && b[p1 + 1] == 0x64 {
            match parse_bytes_field(b, p1 + 2) {
                Some((d, p2)) => if p2 == b.len() {
                    Some((r, d))
                } else {
                    None
                },
                None => None,
            }
        } else {
            None
        },
        None => None,
    }
}

/// The map form with `d` first.
pub open spec fn parse_d_first(b: Seq<u8>) -> Option<(nat, Seq<u8>)> {
    match parse_bytes_field(b, 3) {
        Some((d, p1)) => if p1 + 2 <= b.len() && b[p1] == 0xa1 && b[p1 + 1] == 0x72 {
            match parse_uint(b, p1 + 2) {
                Some((r, p2)) => if p2 == b.len() {
                    Some((r, d))
                } else {
                    None
                },
                None => None,
            }
        } else {
            None
        },
        None => None,
    }
}

/// The array form `[r, d]`.
pub open spec fn parse_array_form(b: Seq<u8>) -> Option<(nat, Seq<u8>)> {
    match parse_uint(b, 1) {
        Some((r, p1)) => match parse_bytes_field(b, p1) {
            Some((d, p2)) => if p2 == b.len() {
                Some((r, d))
            } else {
                None
            },
            None => None,
        },
        None => None,
    }
}

/// What a received envelope holds: the remaining count and the fragment, if `b`
/// is exactly one well-formed envelope.
pub open spec fn parse_envelope(b: Seq<u8>) -> Option<(nat, Seq<u8>)> {
    if b.len() >= 3 && b[0] == 0x82 && b[1] == 0xa1 && b[2] == 0x72 {
        parse_r_first(b)
    } else if b.len() >= 3 && b[0] == 0x82 && b[1] == 0xa1 && b[2] == 0x64 {
        parse_d_first(b)
    } else if b.len() >= 1 && b[0] == 0x92 {
        parse_array_form(b)
    } else {
        None
    }
}

proof fn lemma_be_bytes_len(n: nat, w: nat)
    ensures
        be_bytes(n, w).len() == w,
    decreases w,
{
    if w > 0 {
        lemma_be_bytes_len(n / 256, (w - 1) as nat);
    }
}

proof fn lemma_be_round_trip(n: nat, w: nat)
    requires
        n < pow256(w),
    ensures
        be_value(be_bytes(n, w)) == n,
    decreases w,
{
    if w > 0 {
        let s = be_bytes(n, w);
        assert(n / 256 < pow256((w - 1) as nat)) by (nonlinear_arith)
            requires
                n < pow256(w),
                pow256(w) == 256 * pow256((w - 1) as nat),
        ;
        lemma_be_round_trip(n / 256, (w - 1) as nat);
        assert(s.drop_last() =~= be_bytes(n / 256, (w - 1) as nat));
        assert(n == (n / 256) * 256 + n % 256) by (nonlinear_arith);
    }
}

proof fn lemma_be_value_bound(s: Seq<u8>)
    ensures
        be_value(s) < pow256(s.len()),
    decreases s.len(),
{
    if s.len() > 0 {
        lemma_be_value_bound(s.drop_last());
        let v = be_value(s.drop_last());
        let k = pow256((s.len() - 1) as nat);
        assert(v * 256 + s.last() < 256 * k) by (nonlinear_arith)
            requires
                v < k,
                s.last() < 256,
        ;
    }
}

proof fn lemma_pow256_values()
    ensures
        pow256(1) == 0x100,
        pow256(2) == 0x1_0000,
        pow256(4) == 0x1_0000_0000,
        pow256(8) == 0x1_0000_0000_0000_0000,
{
    reveal_with_fuel(pow256, 9);
}

proof fn lemma_parse_uint_at(b: Seq<u8>, p: int, n: nat)
    requires
        n < 0x1_0000_0000_0000_0000,
        0 <= p,
        p + uint_bytes(n).len() <= b.len(),
        b.subrange(p, p + uint_bytes(n).len()) == uint_bytes(n),
    ensures
        parse_uint(b, p) == Some((n, p + uint_bytes(n).len())),
{
    lemma_pow256_values();
    let u = uint_bytes(n);
    assert(b[p] == u[0]);
    if n >= 0x80 {
        let w: nat = if n < 0x100 {
            1
        } else if n < 0x1_0000 {
            2
        } else if n < 0x1_0000_0000 {
            4
        } else {
            8
        };
        lemma_be_bytes_len(n, w);
        lemma_be_round_trip(n, w);
        assert(u =~= seq![u[0]] + be_bytes(n, w));
        assert(u.subrange(1, 1 + w as int) =~= be_bytes(n, w));
        assert(b.subrange(p + 1, p + 1 + w) =~= b.subrange(p, p + u.len()).subrange(1, 1 + w as int));
    }
}

proof fn lemma_parse_header_at(b: Seq<u8>, p: int, n: nat)
    requires
        n < 0x1_0000_0000,
        0 <= p,
        p + array_header(n).len() <= b.len(),
        b.subrange(p, p + array_header(n).len()) == array_header(n),
    ensures
        parse_array_header(b, p) == Some((n, p + array_header(n).len())),
{
    lemma_pow256_values();
    let u = array_header(n);
    assert(b[p] == u[0]);
    if n >= 16 {
        let w: nat = if n < 0x1_0000 {
            2
        } else {
            4
        };
        lemma_be_bytes_len(n, w);
        lemma_be_round_trip(n, w);
        assert(u =~= seq![u[0]] + be_bytes(n, w));
        assert(u.subrange(1, 1 + w as int) =~= be_bytes(n, w));
        assert(b.subrange(p + 1, p + 1 + w) =~= b.subrange(p, p + u.len()).subrange(1, 1 + w as int));
    }
}

proof fn lemma_parse_items_at(b: Seq<u8>, p: int, d: Seq<u8>)
    requires
        0 <= p,
        p + items_bytes(d).len() <= b.len(),
        b.subrange(p, p + items_bytes(d).len()) == items_bytes(d),
    ensures
        parse_items(b, p, d.len()) == Some((d, p + items_bytes(d).len())),
    decreases d.len(),
{
    if d.len() > 0 {
        let front = items_bytes(d.drop_last());
        let last = uint_bytes(d.last() as nat);
        let q = p + front.len();
        assert(b.subrange(p, q) =~= front) by {
            assert(b.subrange(p, q) =~= b.subrange(p, p + items_bytes(d).len()).subrange(0, front.len() as int));
        }
        lemma_parse_items_at(b, p, d.drop_last());
        assert(b.subrange(q, q + last.len()) =~= last) by {
            assert(b.subrange(q, q + last.len()) =~= b.subrange(p, p + items_bytes(d).len()).subrange(
                front.len() as int,
                (front.len() + last.len()) as int,
            ));
        }
        lemma_parse_uint_at(b, q, d.last() as nat);
        assert(d.drop_last().push(d.last()) =~= d);
    }
}

/// Decoding an encoded envelope gives back its remaining count and its fragment.
pub proof fn lemma_envelope_round_trip(r: nat, d: Seq<u8>)
    requires
        r < 0x1_0000_0000_0000_0000,
        d.len() < 0x1_0000_0000,
    ensures
        parse_envelope(envelope_bytes(r, d)) == Some((r, d)),
{
    let u = uint_bytes(r);
    let h = array_header(d.len());
    let it = items_bytes(d);
    let e = envelope_bytes(r, d);
    let p1: int = 3 + u.len() as int;
    let p2: int = p1 + 2 + h.len();
    assert(e.subrange(3, p1) =~= u);
    lemma_parse_uint_at(e, 3, r);
    assert(e[p1 as int] == 0xa1 && e[p1 + 1] == 0x64);
    assert(e.subrange(p1 + 2, p2) =~= h);
    lemma_parse_header_at(e, p1 + 2, d.len());
    assert(e.subrange(p2, p2 + it.len()) =~= it);
    lemma_parse_items_at(e, p2, d);
    assert(parse_bytes_field(e, p1 + 2) == Some((d, p2 + it.len())));
    assert(parse_r_first(e) == Some((r, d)));
}

fn push_be(out: &mut Vec<u8>, n: u64, w: usize)
    ensures
        final(out)@ == old(out)@ + be_bytes(n as nat, w as nat),
    decreases w,
{
    if w > 0 {
        push_be(out, n / 256, w - 1);
        out.push((n % 256) as u8);
        proof {
            assert(final(out)@ =~= old(out)@ + be_bytes(n as nat, w as nat));
        }
    }
}

fn push_uint(out: &mut Vec<u8>, n: u64)
    ensures
        final(out)@ == old(out)@ + uint_bytes(n as nat),
{
    let ghost start = out@;
    if n < 0x80 {
        out.push(n as u8);
    } else {
        let w: usize;
        if n < 0x100 {
            out.push(0xcc);
            w = 1;
        } else if n < 0x1_0000 {
            out.push(0xcd);
            w = 2;
        } else if n < 0x1_0000_0000 {
            out.push(0xce);
            w = 4;
        } else {
            out.push(0xcf);
            w = 8;
        }
        push_be(out, n, w);
    }
    proof {
        assert(out@ =~= start + uint_bytes(n as nat));
    }
}

fn push_array_header(out: &mut Vec<u8>, n: usize)
    requires
        n < 0x1_0000_0000,
    ensures
        final(out)@ == old(out)@ + array_header(n as nat),
{
    let ghost start = out@;
    if n < 16 {
        out.push((0x90 + n) as u8);
    } else if n < 0x1_0000 {
        out.push(0xdc);
        push_be(out, n as u64, 2);
    } else {
        out.push(0xdd);
        push_be(out, n as u64, 4);
    }
    proof {
        assert(out@ =~= start + array_header(n as nat));
    }
}

/// Encodes an envelope.
pub fn encode_chunk(chunk: &DataChunk) -> (r: Vec<u8>)
    requires
        chunk.d@.len() < 0x1_0000_0000,
    ensures
        r@ == envelope_bytes(chunk.r as nat, chunk.d@),
{
    let mut out: Vec<u8> = Vec::new();
    out.push(0x82);
    out.push(0xa1);
    out.push(0x72);
    push_uint(&mut out, chunk.r as u64);
    out.push(0xa1);
    out.push(0x64);
    push_array_header(&mut out, chunk.d.len());
    let ghost head = out@;
    let mut i: usize = 0;
    while i < chunk.d.len()
        invariant
            i <= chunk.d@.len(),
            out@ == head + items_bytes(chunk.d@.subrange(0, i as int)),
        decreases chunk.d@.len() - i,
    {
        push_uint(&mut out, chunk.d[i] as u64);
        proof {
            let next = chunk.d@.subrange(0, i + 1);
            assert(next.drop_last() =~= chunk.d@.subrange(0, i as int));
        }
        i = i + 1;
    }
    proof {
        assert(chunk.d@.subrange(0, i as int) =~= chunk.d@);
        assert(out@ =~= envelope_bytes(chunk.r as nat, chunk.d@));
    }
    out
}

fn read_be(b: &[u8], p: usize, w: usize) -> (r: u64)
    requires
        p + w <= b@.len(),
        w <= 8,
    ensures
        r as nat == be_value(b@.subrange(p as int, p + w)),
{
    let mut acc: u64 = 0;
    let mut k: usize = 0;
    let len = b.len();
    proof {
        lemma_pow256_values();
    }
    while k < w
        invariant
            k <= w <= 8,
            p + w <= b@.len(),
            len == b@.len(),
            acc as nat == be_value(b@.subrange(p as int, p + k)),
            pow256(8) == 0x1_0000_0000_0000_0000,
        decreases w - k,
    {
        let ghost prev = b@.subrange(p as int, p + k);
        let ghost next = b@.subrange(p as int, p + k + 1);
        proof {
            assert(next.drop_last() =~= prev);
            assert(next.last() == b@[p + k]);
            lemma_be_value_bound(next);
            lemma_pow256_mono(next.len(), 8);
        }
        let byte = b[p + k] as u64;
        acc = acc * 256 + byte;
        k = k + 1;
    }
    acc
}

proof fn lemma_pow256_mono(a: nat, b: nat)
    requires
        a <= b,
    ensures
        pow256(a) <= pow256(b),
    decreases b,
{
    if a < b {
        lemma_pow256_mono(a, (b - 1) as nat);
    }
}

fn read_uint(b: &[u8], p: usize) -> (r: Option<(u64, usize)>)
    ensures
        match r {
            Some((v, q)) => parse_uint(b@, p as int) == Some((v as nat, q as int)),
            None => parse_uint(b@, p as int) is None,
        },
{
    if p >= b.len() {
        return None;
    }
    let m = b[p];
    if m < 0x80 {
        return Some((m as u64, p + 1));
    }
    let w: usize = if m == 0xcc || m == 0xd0 {
        1
    } else if m == 0xcd || m == 0xd1 {
        2
    } else if m == 0xce || m == 0xd2 {
        4
    } else if m == 0xcf || m == 0xd3 {
        8
    } else {
        return None;
    };
    if w > b.len() - p - 1 {
        return None;
    }
    if 0xd0 <= m && m <= 0xd3 && b[p + 1] >= 0x80 {
        return None;
    }
    let v = read_be(b, p + 1, w);
    Some((v, p + 1 + w))
}

fn read_array_header(b: &[u8], p: usize) -> (r: Option<(usize, usize)>)
    ensures
        match r {
            Some((n, q)) => parse_array_header(b@, p as int) == Some((n as nat, q as int)),
            None => parse_array_header(b@, p as int) is None,
        },
{
    if p >= b.len() {
        return None;
    }
    let m = b[p];
    if 0x90 <= m && m <= 0x9f {
        return Some(((m - 0x90) as usize, p + 1));
    }
    let w: usize = if m == 0xdc {
        2
    } else if m == 0xdd {
        4
    } else {
        return None;
    };
    if w > b.len() - p - 1 {
        return None;
    }
    let v = read_be(b, p + 1, w);
    proof {
        lemma_be_value_bound(b@.subrange(p + 1, p + 1 + w));
        lemma_pow256_values();
        lemma_pow256_mono(w as nat, 4);
    }
    Some((v as usize, p + 1 + w))
}

fn read_bytes_field(b: &[u8], p: usize) -> (r: Option<(Vec<u8>, usize)>)
    ensures
        match r {
            Some((d, q)) => parse_bytes_field(b@, p as int) == Some((d@, q as int)),
            None => parse_bytes_field(b@, p as int) is None,
        },
{
    let (n, p2) = match read_array_header(b, p) {
        Some(x) => x,
        None => return None,
    };
    let mut d: Vec<u8> = Vec::new();
    let mut q: usize = p2;
    let mut i: usize = 0;
    while i < n
        invariant
            i <= n,
            parse_items(b@, p2 as int, i as nat) == Some((d@, q as int)),
            parse_array_header(b@, p as int) == Some((n as nat, p2 as int)),
        decreases n - i,
    {
        match read_uint(b, q) {
            Some((v, q2)) => {
                if v >= 256 {
                    proof {
                        lemma_parse_items_fail_after(b@, p2 as int, (i + 1) as nat, n as nat);
                    }
                    return None;
                }
                d.push(v as u8);
                q = q2;
            },
            None => {
                proof {
                    lemma_parse_items_fail_after(b@, p2 as int, (i + 1) as nat, n as nat);
                }
                return None;
            },
        }
        i = i + 1;
    }
    Some((d, q))
}

fn decode_r_first(b: &[u8]) -> (r: Option<(u64, Vec<u8>)>)
    requires
        b@.len() >= 3,
    ensures
        match r {
            Some((rem, d)) => parse_r_first(b@) == Some((rem as nat, d@)),
            None => parse_r_first(b@) is None,
        },
{
    let (rem, p1) = match read_uint(b, 3) {
        Some(x) => x,
        None => return None,
    };
    if p1 > b.len() || b.len() - p1 < 2 || b[p1] != 0xa1 || b[p1 + 1] != 0x64 {
        return None;
    }
    let (d, p2) = match read_bytes_field(b, p1 + 2) {
        Some(x) => x,
        None => return None,
    };
    if p2 != b.len() {
        return None;
    }
    Some((rem, d))
}

fn decode_d_first(b: &[u8]) -> (r: Option<(u64, Vec<u8>)>)
    requires
        b@.len() >= 3,
    ensures
        match r {
            Some((rem, d)) => parse_d_first(b@) == Some((rem as nat, d@)),
            None => parse_d_first(b@) is None,
        },
{
    let (d, p1) = match read_bytes_field(b, 3) {
        Some(x) => x,
        None => return None,
    };
    if p1 > b.len() || b.len() - p1 < 2 || b[p1] != 0xa1 || b[p1 + 1] != 0x72 {
        return None;
    }
    let (rem, p2) = match read_uint(b, p1 + 2) {
        Some(x) => x,
        None => return None,
    };
    if p2 != b.len() {
        return None;
    }
    Some((rem, d))
}

fn decode_array_form(b: &[u8]) -> (r: Option<(u64, Vec<u8>)>)
    ensures
        match r {
            Some((rem, d)) => parse_array_form(b@) == Some((rem as nat, d@)),
            None => parse_array_form(b@) is None,
        },
{
    let (rem, p1) = match read_uint(b, 1) {
        Some(x) => x,
        None => return None,
    };
    let (d, p2) = match read_bytes_field(b, p1) {
        Some(x) => x,
        None => return None,
    };
    if p2 != b.len() {
        return None;
    }
    Some((rem, d))
}

/// Decodes one envelope; fails where the bytes are not exactly one envelope, or
/// where the remaining count does not fit in `usize`.
pub fn decode_chunk(b: &[u8]) -> (r: Result<DataChunk, BleError>)
    ensures
        match r {
            Ok(c) => parse_envelope(b@) == Some((c.r as nat, c.d@)),
            Err(e) => e == BleError::InvalidEnvelope && match parse_envelope(b@) {
                None => true,
                Some((rem, d)) => rem > usize::MAX,
            },
        },
{
    let parsed = if b.len() >= 3 && b[0] == 0x82 && b[1] == 0xa1 && b[2] == 0x72 {
        decode_r_first(b)
    } else if b.len() >= 3 && b[0] == 0x82 && b[1] == 0xa1 && b[2] == 0x64 {
        decode_d_first(b)
    } else if b.len() >= 1 && b[0] == 0x92 {
        decode_array_form(b)
    } else {
        None
    };
    match parsed {
        Some((rem, d)) => {
            if rem > usize::MAX as u64 {
                return Err(BleError::InvalidEnvelope);
            }
            Ok(DataChunk { r: rem as usize, d })
        },
        None => Err(BleError::InvalidEnvelope),
    }
}

proof fn lemma_parse_items_fail_after(b: Seq<u8>, p: int, i: nat, n: nat)
    requires
        i <= n,
        parse_items(b, p, i) is None,
    ensures
        parse_items(b, p, n) is None,
    decreases n - i,
{
    if i < n {
        lemma_parse_items_fail_after(b, p, i + 1, n);
    }
}

} // verus!
