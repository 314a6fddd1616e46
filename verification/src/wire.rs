//! Length-prefixed framing of the byte streams that peers exchange.
//!
//! A handshake travels behind a 4-byte big-endian length header, every file
//! projection behind a 2-byte big-endian length header.
use vstd::prelude::*;
use vstd::arithmetic::div_mod::lemma_fundamental_div_mod_converse;

verus! {

/// The four big-endian bytes of a 32-bit value.
pub open spec fn be_bytes_u32(n: u32) -> Seq<u8> {
    seq![
        (n / 0x100_0000) as u8,
        ((n / 0x1_0000) % 0x100) as u8,
        ((n / 0x100) % 0x100) as u8,
        (n % 0x100) as u8,
    ]
}

/// The two big-endian bytes of a 16-bit value.
pub open spec fn be_bytes_u16(n: u16) -> Seq<u8> {
    seq![(n / 0x100) as u8, (n % 0x100) as u8]
}

/// The value that four big-endian bytes denote.
pub open spec fn be_value_u32(b: Seq<u8>) -> int {
    b[0] * 0x100_0000 + b[1] * 0x1_0000 + b[2] * 0x100 + b[3]
}

/// The value that two big-endian bytes denote.
pub open spec fn be_value_u16(b: Seq<u8>) -> int {
    b[0] * 0x100 + b[1]
}

/// Reading back the bytes of a value gives the value.
pub proof fn lemma_be_u32_roundtrip(n: u32)
    ensures
        be_value_u32(be_bytes_u32(n)) == n,
{
    let b = be_bytes_u32(n);
    assert(b[0] == n / 0x100_0000);
    assert(b[1] == (n / 0x1_0000) % 0x100);
    assert(b[2] == (n / 0x100) % 0x100);
    assert(b[3] == n % 0x100);
}

/// Reading back the bytes of a value gives the value.
pub proof fn lemma_be_u16_roundtrip(n: u16)
    ensures
        be_value_u16(be_bytes_u16(n)) == n,
{
    let b = be_bytes_u16(n);
    assert(b[0] == n / 0x100);
    assert(b[1] == n % 0x100);
}

/// Writing the value of four bytes gives those bytes.
pub proof fn lemma_be_u32_bytes_roundtrip(b: Seq<u8>)
    requires
        b.len() == 4,
    ensures
        0 <= be_value_u32(b) <= u32::MAX,
        be_bytes_u32(be_value_u32(b) as u32) == b,
{
    let v = be_value_u32(b);
    let n = v as u32;
    assert(n == v);
    let (b0, b1, b2, b3) = (b[0] as int, b[1] as int, b[2] as int, b[3] as int);
    lemma_fundamental_div_mod_converse(v, 0x100_0000, b0, b1 * 0x1_0000 + b2 * 0x100 + b3);
    lemma_fundamental_div_mod_converse(v, 0x1_0000, b0 * 0x100 + b1, b2 * 0x100 + b3);
    lemma_fundamental_div_mod_converse(b0 * 0x100 + b1, 0x100, b0, b1);
    lemma_fundamental_div_mod_converse(v, 0x100, b0 * 0x1_0000 + b1 * 0x100 + b2, b3);
    lemma_fundamental_div_mod_converse(b0 * 0x1_0000 + b1 * 0x100 + b2, 0x100, b0 * 0x100 + b1, b2);
    assert(be_bytes_u32(n) =~= b);
}

/// Writing the value of two bytes gives those bytes.
pub proof fn lemma_be_u16_bytes_roundtrip(b: Seq<u8>)
    requires
        b.len() == 2,
    ensures
        0 <= be_value_u16(b) <= u16::MAX,
        be_bytes_u16(be_value_u16(b) as u16) == b,
{
    let v = be_value_u16(b);
    let n = v as u16;
    assert(n == v);
    assert(n / 0x100 == b[0]);
    assert(n % 0x100 == b[1]);
    assert(be_bytes_u16(n) =~= b);
}

/// `u32::to_be_bytes`.
pub fn u32_to_be_bytes(n: u32) -> (r: [u8; 4])
    ensures
        r@ == be_bytes_u32(n),
{
    let r = [
        (n / 0x100_0000) as u8,
        ((n / 0x1_0000) % 0x100) as u8,
        ((n / 0x100) % 0x100) as u8,
        (n % 0x100) as u8,
    ];
    assert(r@ =~= be_bytes_u32(n));
    r
}

/// `u16::to_be_bytes`.
pub fn u16_to_be_bytes(n: u16) -> (r: [u8; 2])
    ensures
        r@ == be_bytes_u16(n),
{
    let r = [(n / 0x100) as u8, (n % 0x100) as u8];
    assert(r@ =~= be_bytes_u16(n));
    r
}

/// `u32::from_be_bytes`.
pub fn u32_from_be_bytes(b: [u8; 4]) -> (r: u32)
    ensures
        r == be_value_u32(b@),
{
    b[0] as u32 * 0x100_0000 + b[1] as u32 * 0x1_0000 + b[2] as u32 * 0x100 + b[3] as u32
}

/// `u16::from_be_bytes`.
pub fn u16_from_be_bytes(b: [u8; 2]) -> (r: u16)
    ensures
        r == be_value_u16(b@),
{
    b[0] as u16 * 0x100 + b[1] as u16
}


/// A payload behind a two-byte header holding its length cut to 16 bits.
pub open spec fn frame16(p: Seq<u8>) -> Seq<u8> {
    be_bytes_u16((p.len() % 0x1_0000) as u16) + p
}

/// A payload behind a four-byte header holding its length cut to 32 bits.
pub open spec fn frame32(p: Seq<u8>) -> Seq<u8> {
    be_bytes_u32((p.len() % 0x1_0000_0000) as u32) + p
}

/// Each payload in turn, behind its two-byte header.
pub open spec fn frames16(ps: Seq<Seq<u8>>) -> Seq<u8>
    decreases ps.len(),
{
    if ps.len() == 0 {
        seq![]
    } else {
        frame16(ps[0]) + frames16(ps.drop_first())
    }
}

/// What one read of at most `n` bytes takes from the front of `s`: the `n`
/// bytes, or all of `s` where it holds fewer.
pub open spec fn take_up_to(s: Seq<u8>, n: int) -> Seq<u8> {
    if n <= s.len() {
        s.take(n)
    } else {
        s
    }
}

/// The payloads that a reader takes from a stream of two-byte-headed frames,
/// where each read gives as many of the bytes asked for as remain. Reading
/// stops where the stream ends, also right after a header; a payload cut
/// short by the end of the stream is taken as it is.
pub open spec fn read_frames16(s: Seq<u8>) -> Seq<Seq<u8>>
    decreases s.len(),
{
    if s.len() < 2 {
        seq![]
    } else {
        let after = s.skip(2);
        if after.len() == 0 {
            seq![]
        } else {
            let p = take_up_to(after, be_value_u16(s.take(2)));
            seq![p] + read_frames16(after.skip(p.len() as int))
        }
    }
}

/// Whether no header of a stream of two-byte-headed frames is cut short: the
/// stream does not end one byte into a header.
pub open spec fn frames16_readable(s: Seq<u8>) -> bool
    decreases s.len(),
{
    if s.len() == 0 {
        true
    } else if s.len() < 2 {
        false
    } else {
        let after = s.skip(2);
        after.len() == 0 || frames16_readable(after.skip(take_up_to(after, be_value_u16(s.take(2))).len() as int))
    }
}

/// A reader takes back the payloads that were framed, where none of them is
/// empty or longer than its header can count.
pub proof fn law_frames16_read_back(ps: Seq<Seq<u8>>)
    requires
        forall|i: int| 0 <= i < ps.len() ==> 0 < (#[trigger] ps[i]).len() <= u16::MAX,
    ensures
        frames16_readable(frames16(ps)),
        read_frames16(frames16(ps)) == ps,
    decreases ps.len(),
{
    if ps.len() == 0 {
        assert(frames16(ps) =~= seq![]);
    } else {
        let p = ps[0];
        let rest = ps.drop_first();
        assert forall|i: int| 0 <= i < rest.len() implies 0 < (#[trigger] rest[i]).len() <= u16::MAX by {
            assert(rest[i] == ps[i + 1]);
        }
        law_frames16_read_back(rest);
        let s = frames16(ps);
        let h = be_bytes_u16(p.len() as u16);
        lemma_be_u16_roundtrip(p.len() as u16);
        assert(s =~= h + p + frames16(rest));
        assert(s.take(2) =~= h);
        let after = s.skip(2);
        assert(after =~= p + frames16(rest));
        assert(take_up_to(after, be_value_u16(s.take(2))) =~= p);
        assert(after.skip(p.len() as int) =~= frames16(rest));
        assert(seq![p] + rest =~= ps);
    }
}

/// The bytes `s[from..to]`, copied.
pub fn copy_range(s: &[u8], from: usize, to: usize) -> (r: Vec<u8>)
    requires
        from <= to <= s@.len(),
    ensures
        r@ == s@.subrange(from as int, to as int),
{
    let mut r: Vec<u8> = Vec::new();
    let mut i = from;
    while i < to
        invariant
            from <= i <= to <= s@.len(),
            r@ == s@.subrange(from as int, i as int),
        decreases to - i,
    {
        r.push(s[i]);
        i = i + 1;
        assert(r@ =~= s@.subrange(from as int, i as int));
    }
    r
}

/// Puts `payload` behind a two-byte header holding its length. As in the
/// protocol, the length is cut to 16 bits.
pub fn frame_u16(payload: &[u8]) -> (r: Vec<u8>)
    ensures
        r@ == frame16(payload@),
{
    let n = payload.len();
    let header = u16_to_be_bytes((n % 0x1_0000) as u16);
    let mut r: Vec<u8> = Vec::new();
    r.push(header[0]);
    r.push(header[1]);
    let mut i: usize = 0;
    while i < n
        invariant
            n == payload@.len(),
            i <= n,
            r@ == header@ + payload@.take(i as int),
        decreases n - i,
    {
        r.push(payload[i]);
        i = i + 1;
        assert(r@ =~= header@ + payload@.take(i as int));
    }
    assert(payload@.take(n as int) =~= payload@);
    r
}

/// Puts `payload` behind a four-byte header holding its length. As in the
/// protocol, the length is cut to 32 bits.
pub fn frame_u32(payload: &[u8]) -> (r: Vec<u8>)
    ensures
        r@ == frame32(payload@),
{
    let n = payload.len();
    let header = u32_to_be_bytes((n as u64 % 0x1_0000_0000) as u32);
    let mut r: Vec<u8> = Vec::new();
    r.push(header[0]);
    r.push(header[1]);
    r.push(header[2]);
    r.push(header[3]);
    let mut i: usize = 0;
    while i < n
        invariant
            n == payload@.len(),
            i <= n,
            r@ == header@ + payload@.take(i as int),
        decreases n - i,
    {
        r.push(payload[i]);
        i = i + 1;
        assert(r@ =~= header@ + payload@.take(i as int));
    }
    assert(payload@.take(n as int) =~= payload@);
    r
}

/// The payloads that a reader takes from a stream of two-byte-headed frames,
/// as `read_frames16` describes.
pub fn read_frames_u16(stream: &[u8]) -> (r: Vec<Vec<u8>>)
    requires
        frames16_readable(stream@),
    ensures
        r@.map_values(|x: Vec<u8>| x@) == read_frames16(stream@),
{
    let n = stream.len();
    let mut out: Vec<Vec<u8>> = Vec::new();
    let mut pos: usize = 0;
    assert(stream@.skip(0) =~= stream@);
    assert(out@.map_values(|x: Vec<u8>| x@) + read_frames16(stream@) =~= read_frames16(stream@));
    while pos < n
        invariant
            n == stream@.len(),
            pos <= n,
            frames16_readable(stream@.skip(pos as int)),
            out@.map_values(|x: Vec<u8>| x@) + read_frames16(stream@.skip(pos as int)) == read_frames16(stream@),
        decreases n - pos,
    {
        let ghost s = stream@.skip(pos as int);
        let ghost before = out@.map_values(|x: Vec<u8>| x@);
        let len = u16_from_be_bytes([stream[pos], stream[pos + 1]]) as usize;
        assert(s.take(2) =~= seq![stream@[pos as int], stream@[pos + 1]]);
        let avail = n - pos - 2;
        if avail == 0 {
            assert(read_frames16(s) == Seq::<Seq<u8>>::empty());
            assert(before + Seq::<Seq<u8>>::empty() =~= before);
            pos = n;
            assert(stream@.skip(pos as int) =~= seq![]);
        } else {
            let k = if len <= avail { len } else { avail };
            let frame = copy_range(stream, pos + 2, pos + 2 + k);
            let ghost after = s.skip(2);
            assert(after =~= stream@.skip(pos + 2));
            assert(take_up_to(after, len as int) =~= frame@);
            assert(after.skip(k as int) =~= stream@.skip(pos + 2 + k));
            out.push(frame);
            assert(out@.map_values(|x: Vec<u8>| x@) =~= before + seq![frame@]);
            pos = pos + 2 + k;
            assert(before + seq![frame@] + read_frames16(stream@.skip(pos as int)) =~= before + (seq![frame@] + read_frames16(stream@.skip(pos as int))));
        }
    }
    assert(stream@.skip(n as int) =~= seq![]);
    assert(out@.map_values(|x: Vec<u8>| x@) + Seq::<Seq<u8>>::empty() =~= out@.map_values(|x: Vec<u8>| x@));
    out
}

/// Whether no header of a stream of two-byte-headed frames is cut short.
pub fn frames_u16_readable(stream: &[u8]) -> (r: bool)
    ensures
        r == frames16_readable(stream@),
{
    let n = stream.len();
    let mut pos: usize = 0;
    assert(stream@.skip(0) =~= stream@);
    while pos < n
        invariant
            n == stream@.len(),
            pos <= n,
            frames16_readable(stream@.skip(pos as int)) == frames16_readable(stream@),
        decreases n - pos,
    {
        let ghost s = stream@.skip(pos as int);
        if n - pos < 2 {
            return false;
        }
        let len = u16_from_be_bytes([stream[pos], stream[pos + 1]]) as usize;
        assert(s.take(2) =~= seq![stream@[pos as int], stream@[pos + 1]]);
        let avail = n - pos - 2;
        if avail == 0 {
            return true;
        }
        let k = if len <= avail { len } else { avail };
        let ghost after = s.skip(2);
        assert(after =~= stream@.skip(pos + 2));
        assert(take_up_to(after, len as int).len() == k);
        assert(after.skip(k as int) =~= stream@.skip(pos + 2 + k));
        pos = pos + 2 + k;
    }
    assert(stream@.skip(n as int) =~= seq![]);
    true
}

} // verus!
