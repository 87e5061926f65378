//! The wire format: each frame is a four-byte start marker, the payload's
//! length as eight big-endian bytes, and the payload.
use vstd::prelude::*;

verus! {

/// Bytes in a frame before its payload.
pub const HEADER_LEN: usize = 12;

/// The marker that opens every frame.
pub open spec fn marker() -> Seq<u8> {
    seq![0x2Cu8, 0x0Fu8, 0xFEu8, 0xE5u8]
}

pub open spec fn pow256(k: nat) -> nat
    decreases k,
{
    if k == 0 { 1 } else { 256 * pow256((k - 1) as nat) }
}

/// The `k` low base-256 digits of `n`, most significant first.
pub open spec fn be_bytes(n: nat, k: nat) -> Seq<u8>
    decreases k,
{
    if k == 0 { seq![] } else { be_bytes(n / 256, (k - 1) as nat).push((n % 256) as u8) }
}

/// The number that big-endian bytes `s` stand for.
pub open spec fn be_value(s: Seq<u8>) -> nat
    decreases s.len(),
{
    if s.len() == 0 { 0 } else { be_value(s.drop_last()) * 256 + (s.last() as nat) }
}

/// The frame that carries `payload`.
pub open spec fn frame_of(payload: Seq<u8>) -> Seq<u8> {
    marker() + be_bytes(payload.len(), 8) + payload
}

/// The frames of `ms`, one after the other.
pub open spec fn frames(ms: Seq<Seq<u8>>) -> Seq<u8>
    decreases ms.len(),
{
    if ms.len() == 0 { seq![] } else { frames(ms.drop_last()) + frame_of(ms.last()) }
}

pub open spec fn starts_with_marker(s: Seq<u8>) -> bool {
    s.len() >= 4 && s.take(4) == marker()
}

/// The payload length that a frame header at the start of `s` announces.
pub open spec fn announced_len(s: Seq<u8>) -> nat {
    be_value(s.subrange(4, 12))
}

/// A whole frame stands at the start of `s`.
pub open spec fn frame_ready(s: Seq<u8>) -> bool {
    starts_with_marker(s) && s.len() >= 12 && s.len() >= 12 + announced_len(s)
}

/// Nothing can be decided at the start of `s` before more bytes come.
pub open spec fn needs_more(s: Seq<u8>) -> bool {
    s.len() < 4 || (starts_with_marker(s) && !frame_ready(s))
}

/// Reads `s` frame by frame: the payloads in order, the bytes still waiting
/// for the rest of their frame, and how many bytes were dropped because no
/// frame started there.
pub open spec fn decode_stream(s: Seq<u8>) -> (Seq<Seq<u8>>, Seq<u8>, nat)
    decreases s.len(),
{
    if needs_more(s) {
        (seq![], s, 0)
    } else if !starts_with_marker(s) {
        let r = decode_stream(s.drop_first());
        (r.0, r.1, r.2 + 1)
    } else {
        let n = 12 + announced_len(s);
        let r = decode_stream(s.skip(n as int));
        (seq![s.subrange(12, n as int)] + r.0, r.1, r.2)
    }
}

pub open spec fn payloads(vs: Seq<Vec<u8>>) -> Seq<Seq<u8>> {
    vs.map_values(|v: Vec<u8>| v@)
}

proof fn lemma_be_bytes_len(n: nat, k: nat)
    ensures
        be_bytes(n, k).len() == k,
    decreases k,
{
    if k > 0 {
        lemma_be_bytes_len(n / 256, (k - 1) as nat);
    }
}

proof fn lemma_be_round_trip(n: nat, k: nat)
    requires
        n < pow256(k),
    ensures
        be_value(be_bytes(n, k)) == n,
    decreases k,
{
    if k > 0 {
        let k1 = (k - 1) as nat;
        assert(n / 256 < pow256(k1)) by (nonlinear_arith)
            requires
                n < 256 * pow256(k1),
        ;
        lemma_be_round_trip(n / 256, k1);
        let s = be_bytes(n, k);
        assert(s.drop_last() =~= be_bytes(n / 256, k1));
        assert(n == (n / 256) * 256 + n % 256) by (nonlinear_arith);
    }
}

proof fn lemma_be_value_bound(s: Seq<u8>)
    ensures
        be_value(s) < pow256(s.len()),
    decreases s.len(),
{
    if s.len() > 0 {
        let k1 = (s.len() - 1) as nat;
        lemma_be_value_bound(s.drop_last());
        let v = be_value(s.drop_last());
        let b = s.last() as nat;
        assert(v * 256 + b < 256 * pow256(k1)) by (nonlinear_arith)
            requires
                v < pow256(k1),
                b < 256,
        ;
    }
}

pub proof fn lemma_pow256_8()
    ensures
        pow256(8) == 0x1_0000_0000_0000_0000,
{
    reveal_with_fuel(pow256, 9);
}

/// The header of a frame announces its payload's length.
proof fn lemma_frame_header(p: Seq<u8>)
    requires
        p.len() < pow256(8),
    ensures
        frame_ready(frame_of(p)),
        announced_len(frame_of(p)) == p.len(),
        frame_of(p).len() == 12 + p.len(),
        frame_of(p).subrange(12, 12 + p.len() as int) =~= p,
{
    let f = frame_of(p);
    lemma_be_bytes_len(p.len(), 8);
    lemma_be_round_trip(p.len(), 8);
    assert(f.take(4) =~= marker());
    assert(f.subrange(4, 12) =~= be_bytes(p.len(), 8));
}

/// Decoding depends on a prefix only through what decoding it leaves waiting.
pub proof fn lemma_decode_append(a: Seq<u8>, b: Seq<u8>)
    ensures
        ({
            let da = decode_stream(a);
            let dr = decode_stream(da.1 + b);
            decode_stream(a + b) == (da.0 + dr.0, dr.1, da.2 + dr.2)
        }),
    decreases a.len(),
{
    let ab = a + b;
    let da = decode_stream(a);
    if needs_more(a) {
        assert(da.0 + decode_stream(a + b).0 =~= decode_stream(a + b).0);
    } else {
        assert(ab.take(4) =~= a.take(4));
        if !starts_with_marker(a) {
            assert(ab.drop_first() =~= a.drop_first() + b);
            lemma_decode_append(a.drop_first(), b);
        } else {
            assert(ab.subrange(4, 12) =~= a.subrange(4, 12));
            let n = 12 + announced_len(a);
            assert(ab.skip(n as int) =~= a.skip(n as int) + b);
            assert(ab.subrange(12, n as int) =~= a.subrange(12, n as int));
            lemma_decode_append(a.skip(n as int), b);
            let ra = decode_stream(a.skip(n as int));
            let dr = decode_stream(ra.1 + b);
            assert(seq![a.subrange(12, n as int)] + (ra.0 + dr.0)
                =~= (seq![a.subrange(12, n as int)] + ra.0) + dr.0);
        }
    }
}

/// A frame followed by any bytes decodes to its payload and then to what the
/// bytes decode to.
pub proof fn lemma_frame_then(p: Seq<u8>, rest: Seq<u8>)
    requires
        p.len() < pow256(8),
    ensures
        ({
            let d = decode_stream(rest);
            decode_stream(frame_of(p) + rest) == (seq![p] + d.0, d.1, d.2)
        }),
{
    let f = frame_of(p);
    let fr = f + rest;
    lemma_frame_header(p);
    assert(fr.take(4) =~= f.take(4));
    assert(fr.subrange(4, 12) =~= f.subrange(4, 12));
    assert(fr.skip(12 + p.len() as int) =~= rest);
    assert(fr.subrange(12, 12 + p.len() as int) =~= p);
}

/// Framing round trip: decoding the frame of a payload gives back exactly that
/// payload, with nothing left over and nothing dropped.
pub proof fn lemma_frame_round_trip(p: Seq<u8>)
    requires
        p.len() < pow256(8),
    ensures
        decode_stream(frame_of(p)) == (seq![p], Seq::<u8>::empty(), 0nat),
{
    lemma_frame_then(p, seq![]);
    assert(frame_of(p) + seq![] =~= frame_of(p));
    assert(seq![p] + Seq::<Seq<u8>>::empty() =~= seq![p]);
}

/// Frames written one after another decode to their payloads in the same order.
pub proof fn lemma_frames_in_order(ms: Seq<Seq<u8>>)
    requires
        forall|i: int| 0 <= i < ms.len() ==> (#[trigger] ms[i]).len() < pow256(8),
    ensures
        decode_stream(frames(ms)) == (ms, Seq::<u8>::empty(), 0nat),
    decreases ms.len(),
{
    if ms.len() == 0 {
        assert(decode_stream(Seq::<u8>::empty()).0 =~= ms);
    } else {
        let init = ms.drop_last();
        lemma_frames_in_order(init);
        lemma_decode_append(frames(init), frame_of(ms.last()));
        assert(Seq::<u8>::empty() + frame_of(ms.last()) =~= frame_of(ms.last()));
        lemma_frame_round_trip(ms.last());
        assert(init + seq![ms.last()] =~= ms);
    }
}

/// Bytes in which no frame marker starts before `t` are dropped one by one,
/// and `t` then decodes as it would alone.
pub proof fn lemma_skip_junk(junk: Seq<u8>, t: Seq<u8>)
    requires
        t.len() >= 4,
        forall|i: int| 0 <= i < junk.len() ==> !starts_with_marker(#[trigger] (junk + t).skip(i)),
    ensures
        ({
            let d = decode_stream(t);
            decode_stream(junk + t) == (d.0, d.1, d.2 + junk.len())
        }),
    decreases junk.len(),
{
    if junk.len() > 0 {
        let s = junk + t;
        assert(s.skip(0) =~= s);
        assert(s.drop_first() =~= junk.drop_first() + t);
        assert forall|i: int| 0 <= i < junk.drop_first().len() implies !starts_with_marker(
            #[trigger] (junk.drop_first() + t).skip(i),
        ) by {
            assert((junk.drop_first() + t).skip(i) =~= s.skip(i + 1));
        }
        lemma_skip_junk(junk.drop_first(), t);
    } else {
        assert(junk + t =~= t);
    }
}

/// A run of corrupted bytes between two frames costs nothing but those bytes:
/// both payloads are still decoded, in order.
pub proof fn lemma_corruption_resilience(x: Seq<u8>, junk: Seq<u8>, y: Seq<u8>)
    requires
        x.len() < pow256(8),
        y.len() < pow256(8),
        forall|i: int|
            0 <= i < junk.len() ==> !starts_with_marker(#[trigger] (junk + frame_of(y)).skip(i)),
    ensures
        decode_stream(frame_of(x) + junk + frame_of(y)) == (
            seq![x, y],
            Seq::<u8>::empty(),
            junk.len(),
        ),
{
    lemma_frame_header(y);
    lemma_skip_junk(junk, frame_of(y));
    lemma_frame_round_trip(y);
    lemma_frame_then(x, junk + frame_of(y));
    assert(frame_of(x) + junk + frame_of(y) =~= frame_of(x) + (junk + frame_of(y)));
    assert(seq![x] + seq![y] =~= seq![x, y]);
}


/// Appends the `k` low base-256 digits of `n` to `out`, most significant first.
fn push_be(out: &mut Vec<u8>, n: u64, k: usize)
    ensures
        final(out)@ == old(out)@ + be_bytes(n as nat, k as nat),
    decreases k,
{
    if k > 0 {
        push_be(out, n / 256, k - 1);
        out.push((n % 256) as u8);
        assert(final(out)@ =~= old(out)@ + be_bytes(n as nat, k as nat));
    } else {
        assert(old(out)@ + be_bytes(n as nat, 0) =~= old(out)@);
    }
}

/// The frame that carries `payload`.
pub fn encode(payload: &[u8]) -> (r: Vec<u8>)
    ensures
        r@ == frame_of(payload@),
{
    let mut out: Vec<u8> = Vec::new();
    out.push(0x2C);
    out.push(0x0F);
    out.push(0xFE);
    out.push(0xE5);
    assert(out@ =~= marker());
    push_be(&mut out, payload.len() as u64, 8);
    let mut i: usize = 0;
    while i < payload.len()
        invariant
            i <= payload.len(),
            out@ == marker() + be_bytes(payload.len() as nat, 8) + payload@.take(i as int),
        decreases payload.len() - i,
    {
        out.push(payload[i]);
        i = i + 1;
        assert(payload@.take(i as int) =~= payload@.take(i - 1) + seq![payload@[i - 1]]);
    }
    assert(payload@.take(i as int) =~= payload@);
    out
}

/// Whether a frame marker starts at `at`.
fn marker_at(buf: &[u8], at: usize) -> (r: bool)
    requires
        at + 4 <= buf@.len(),
    ensures
        r == starts_with_marker(buf@.skip(at as int)),
{
    let r = buf[at] == 0x2C && buf[at + 1] == 0x0F && buf[at + 2] == 0xFE && buf[at + 3] == 0xE5;
    assert(r == (buf@.skip(at as int).take(4) =~= marker()));
    r
}

/// The number that the eight big-endian bytes at `at` stand for.
fn read_len(buf: &[u8], at: usize) -> (r: u64)
    requires
        at + 8 <= buf@.len(),
    ensures
        r as nat == be_value(buf@.subrange(at as int, at + 8)),
{
    let len = buf.len();
    let mut v: u64 = 0;
    let mut j: usize = 0;
    while j < 8
        invariant
            at + 8 <= buf@.len() == len,
            j <= 8,
            v as nat == be_value(buf@.subrange(at as int, at + j)),
        decreases 8 - j,
    {
        let ghost s = buf@.subrange(at as int, at + j + 1);
        proof {
            assert(s.drop_last() =~= buf@.subrange(at as int, at + j));
            lemma_be_value_bound(s);
            lemma_pow256_8();
            reveal_with_fuel(pow256, 9);
            assert(pow256(s.len()) <= pow256(8));
            assert(be_value(s) == v * 256 + buf@[at + j]);
            assert(v * 256 + buf@[at + j] < 0x1_0000_0000_0000_0000);
        }
        let b = buf[at + j] as u64;
        let hi: u64 = v * 256;
        v = hi + b;
        j = j + 1;
    }
    v
}

/// Decodes the whole frames at the start of `buf`. Returns their payloads in
/// order, where the bytes that still wait for the rest of their frame start,
/// and how many bytes were dropped because no frame started there.
pub fn decode(buf: &[u8]) -> (r: (Vec<Vec<u8>>, usize, usize))
    ensures
        payloads(r.0@) == decode_stream(buf@).0,
        r.1 <= buf@.len(),
        buf@.skip(r.1 as int) == decode_stream(buf@).1,
        r.2 == decode_stream(buf@).2,
{
    let mut out: Vec<Vec<u8>> = Vec::new();
    let mut at: usize = 0;
    let mut dropped: usize = 0;
    assert(buf@.skip(0) =~= buf@);
    assert(payloads(out@) =~= Seq::<Seq<u8>>::empty());
    assert(Seq::<Seq<u8>>::empty() + decode_stream(buf@).0 =~= decode_stream(buf@).0);
    loop
        invariant
            at <= buf@.len(),
            dropped <= at,
            ({
                let d = decode_stream(buf@.skip(at as int));
                let whole = decode_stream(buf@);
                &&& payloads(out@) + d.0 == whole.0
                &&& d.1 == whole.1
                &&& dropped + d.2 == whole.2
            }),
        ensures
            at <= buf@.len(),
            needs_more(buf@.skip(at as int)),
            ({
                let d = decode_stream(buf@.skip(at as int));
                let whole = decode_stream(buf@);
                &&& payloads(out@) + d.0 == whole.0
                &&& d.1 == whole.1
                &&& dropped + d.2 == whole.2
            }),
        decreases buf@.len() - at,
    {
        let ghost s = buf@.skip(at as int);
        let left = buf.len() - at;
        assert(s.len() == left);
        if left < 4 {
            break;
        }
        if !marker_at(buf, at) {
            proof {
                assert(s.drop_first() =~= buf@.skip(at + 1));
            }
            at = at + 1;
            dropped = dropped + 1;
        } else {
            if left < 12 {
                break;
            }
            let n = read_len(buf, at + 4);
            proof {
                assert(s.subrange(4, 12) =~= buf@.subrange(at + 4, at + 12));
            }
            if n > (left - 12) as u64 {
                break;
            }
            let end = at + 12 + n as usize;
            let mut payload: Vec<u8> = Vec::new();
            let mut i: usize = at + 12;
            while i < end
                invariant
                    at + 12 <= i <= end,
                    end <= buf@.len(),
                    payload@ == buf@.subrange(at + 12, i as int),
                decreases end - i,
            {
                payload.push(buf[i]);
                i = i + 1;
                assert(payload@ =~= buf@.subrange(at + 12, i as int));
            }
            proof {
                assert(s.subrange(12, 12 + n) =~= payload@);
                assert(s.skip(12 + n) =~= buf@.skip(end as int));
                let ghost old_out = out@;
                assert(payloads(old_out.push(payload)) =~= payloads(old_out).push(payload@));
                let d = decode_stream(s.skip(12 + n));
                assert(payloads(old_out).push(payload@) + d.0 =~= payloads(old_out) + (
                seq![payload@] + d.0));
            }
            out.push(payload);
            at = end;
        }
    }
    proof {
        let s = buf@.skip(at as int);
        assert(needs_more(s));
        assert(payloads(out@) + Seq::<Seq<u8>>::empty() =~= payloads(out@));
    }
    (out, at, dropped)
}

} // verus!
