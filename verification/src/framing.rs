use vstd::prelude::*;

verus! {

/// The number four little-endian bytes encode.
pub open spec fn le_u32(b: Seq<u8>) -> nat {
    (b[0] as nat) + 256 * (b[1] as nat) + 65536 * (b[2] as nat) + 16777216 * (b[3] as nat)
}

/// The four little-endian bytes of `n` (below 2^32).
pub open spec fn le_bytes(n: nat) -> Seq<u8> {
    seq![(n % 256) as u8, ((n / 256) % 256) as u8, ((n / 65536) % 256) as u8, ((n / 16777216) % 256) as u8]
}

/// The records of a log file: each is a four-byte little-endian length and that many bytes;
/// reading stops at the first record that is cut short.
pub open spec fn frames(bytes: Seq<u8>) -> Seq<Seq<u8>>
    decreases bytes.len(),
{
    if bytes.len() < 4 {
        Seq::empty()
    } else {
        let n = le_u32(bytes.subrange(0, 4));
        if bytes.len() < 4 + n {
            Seq::empty()
        } else {
            seq![bytes.subrange(4, 4 + n as int)] + frames(bytes.subrange(4 + n as int, bytes.len() as int))
        }
    }
}

/// A record: the length of the payload as four little-endian bytes, then the payload.
pub open spec fn framed(payload: Seq<u8>) -> Seq<u8> {
    le_bytes(payload.len()) + payload
}

/// The length bytes of a record read back as its length.
proof fn lemma_le_roundtrip(n: nat)
    requires
        n < 0x1_0000_0000,
    ensures
        le_u32(le_bytes(n)) == n,
{
    let b = le_bytes(n);
    assert(b[0] as nat == n % 256);
    assert(b[1] as nat == (n / 256) % 256);
    assert(b[2] as nat == (n / 65536) % 256);
    assert(b[3] as nat == (n / 16777216) % 256);
    assert((n % 256) + 256 * ((n / 256) % 256) + 65536 * ((n / 65536) % 256) + 16777216 * ((n / 16777216) % 256) == n)
        by (nonlinear_arith)
        requires
            n < 0x1_0000_0000,
    {
        assert(n == 256 * (n / 256) + n % 256);
        assert(n / 256 == 256 * (n / 65536) + (n / 256) % 256);
        assert(n / 65536 == 256 * (n / 16777216) + (n / 65536) % 256);
        assert(n / 16777216 < 256);
    }
}

/// Reading a log gives back, in order, every record written to it: a record followed by more
/// bytes reads as that record's payload and then the records of the rest.
pub proof fn law_frames_roundtrip(payload: Seq<u8>, rest: Seq<u8>)
    requires
        payload.len() < 0x1_0000_0000,
    ensures
        frames(framed(payload) + rest) == seq![payload] + frames(rest),
{
    let all = framed(payload) + rest;
    let n = payload.len();
    lemma_le_roundtrip(n);
    assert(all.subrange(0, 4) =~= le_bytes(n));
    assert(all.subrange(4, 4 + n as int) =~= payload);
    assert(all.subrange(4 + n as int, all.len() as int) =~= rest);
}

/// Records written one after the other read back in order.
pub proof fn law_frames_concat(payloads: Seq<Seq<u8>>)
    requires
        forall|i: int| 0 <= i < payloads.len() ==> (#[trigger] payloads[i]).len() < 0x1_0000_0000,
    ensures
        frames(written(payloads)) == payloads,
    decreases payloads.len(),
{
    if payloads.len() == 0 {
        assert(frames(Seq::<u8>::empty()) =~= Seq::<Seq<u8>>::empty());
    } else {
        let tail = payloads.subrange(1, payloads.len() as int);
        law_frames_concat(tail);
        assert(written(payloads) == framed(payloads[0]) + written(tail));
        law_frames_roundtrip(payloads[0], written(tail));
        assert(payloads =~= seq![payloads[0]] + tail);
    }
}

/// The records written one after the other.
pub open spec fn written(payloads: Seq<Seq<u8>>) -> Seq<u8>
    decreases payloads.len(),
{
    if payloads.len() == 0 {
        Seq::empty()
    } else {
        framed(payloads[0]) + written(payloads.subrange(1, payloads.len() as int))
    }
}

/// The record for a payload (see `framed`).
pub fn frame(payload: &Vec<u8>) -> (r: Vec<u8>)
    requires
        payload@.len() < 0x1_0000_0000,
    ensures
        r@ == framed(payload@),
{
    let n = payload.len();
    let mut r: Vec<u8> = Vec::new();
    r.push((n % 256) as u8);
    r.push(((n / 256) % 256) as u8);
    r.push(((n / 65536) % 256) as u8);
    r.push(((n / 16777216) % 256) as u8);
    let mut i: usize = 0;
    while i < n
        invariant
            n == payload@.len(),
            i <= n,
            r@ == le_bytes(n as nat) + payload@.subrange(0, i as int),
        decreases n - i,
    {
        r.push(payload[i]);
        assert(payload@.subrange(0, i as int + 1) =~= payload@.subrange(0, i as int).push(payload@[i as int]));
        i = i + 1;
    }
    assert(payload@.subrange(0, n as int) =~= payload@);
    r
}

/// The records of a log file (see `frames`).
pub fn split_frames(bytes: &Vec<u8>) -> (r: Vec<Vec<u8>>)
    ensures
        r@.map_values(|v: Vec<u8>| v@) == frames(bytes@),
{
    let mut out: Vec<Vec<u8>> = Vec::new();
    let mut pos: usize = 0;
    let len = bytes.len();
    assert(bytes@.subrange(0, len as int) =~= bytes@);
    assert(out@.map_values(|v: Vec<u8>| v@) + frames(bytes@) =~= frames(bytes@));
    while len - pos >= 4
        invariant
            len == bytes@.len(),
            pos <= len,
            frames(bytes@) == out@.map_values(|v: Vec<u8>| v@) + frames(bytes@.subrange(pos as int, len as int)),
        decreases len - pos,
    {
        let ghost tail = bytes@.subrange(pos as int, len as int);
        let n: u64 = (bytes[pos] as u64) + 256 * (bytes[pos + 1] as u64) + 65536 * (bytes[pos + 2] as u64)
            + 16777216 * (bytes[pos + 3] as u64);
        assert(n == le_u32(tail.subrange(0, 4)));
        if ((len - pos - 4) as u64) < n {
            assert(frames(tail) =~= Seq::<Seq<u8>>::empty());
            assert(out@.map_values(|v: Vec<u8>| v@) + Seq::<Seq<u8>>::empty() =~= out@.map_values(|v: Vec<u8>| v@));
            return out;
        }
        let m = n as usize;
        let start = pos + 4;
        let mut rec: Vec<u8> = Vec::new();
        let mut i: usize = 0;
        while i < m
            invariant
                len == bytes@.len(),
                start + m <= len,
                i <= m,
                rec@ == bytes@.subrange(start as int, start + i),
            decreases m - i,
        {
            rec.push(bytes[start + i]);
            assert(bytes@.subrange(start as int, start + i + 1) =~= bytes@.subrange(start as int, start + i).push(bytes@[start + i]));
            i = i + 1;
        }
        let ghost before = out@.map_values(|v: Vec<u8>| v@);
        out.push(rec);
        proof {
            assert(tail.subrange(4, 4 + m as int) =~= bytes@.subrange(start as int, start + m));
            assert(tail.subrange(4 + m as int, tail.len() as int) =~= bytes@.subrange(start + m, len as int));
            assert(out@.map_values(|v: Vec<u8>| v@) =~= before.push(bytes@.subrange(start as int, start + m)));
            assert(frames(tail) == seq![bytes@.subrange(start as int, start + m)] + frames(bytes@.subrange(start + m, len as int)));
            assert(before + frames(tail) =~= out@.map_values(|v: Vec<u8>| v@) + frames(bytes@.subrange(start + m, len as int)));
        }
        pos = start + m;
    }
    assert(frames(bytes@.subrange(pos as int, len as int)) =~= Seq::<Seq<u8>>::empty());
    assert(out@.map_values(|v: Vec<u8>| v@) + Seq::<Seq<u8>>::empty() =~= out@.map_values(|v: Vec<u8>| v@));
    out
}

} // verus!
