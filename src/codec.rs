//! A bounds-checked byte cursor: 32-bit little-endian counts, fixed-size
//! blocks and length-prefixed byte strings.
use vstd::prelude::*;

verus! {

/// The four little-endian bytes of `v`.
pub open spec fn le32(v: u32) -> Seq<u8> {
    seq![
        (v & 0xff) as u8,
        ((v >> 8u32) & 0xff) as u8,
        ((v >> 16u32) & 0xff) as u8,
        ((v >> 24u32) & 0xff) as u8,
    ]
}

/// The value of four little-endian bytes.
pub open spec fn from_le32(s: Seq<u8>) -> u32 {
    (s[0] as u32) | ((s[1] as u32) << 8u32) | ((s[2] as u32) << 16u32) | ((s[3] as u32) << 24u32)
}

/// A byte string preceded by its length.
pub open spec fn enc_field(f: Seq<u8>) -> Seq<u8> {
    le32(f.len() as u32) + f
}

/// `f` is encoded as a length-prefixed field at offset `pos` of `buf`.
pub open spec fn field_at(buf: Seq<u8>, pos: int, f: Seq<u8>) -> bool {
    &&& f.len() <= u32::MAX
    &&& 0 <= pos
    &&& pos + 4 + f.len() <= buf.len()
    &&& buf.subrange(pos, pos + 4 + f.len()) == enc_field(f)
}

pub proof fn lemma_le32_round_trip(v: u32)
    ensures
        le32(v).len() == 4,
        from_le32(le32(v)) == v,
{
    let b0 = (v & 0xff) as u8;
    let b1 = ((v >> 8u32) & 0xff) as u8;
    let b2 = ((v >> 16u32) & 0xff) as u8;
    let b3 = ((v >> 24u32) & 0xff) as u8;
    assert(((b0 as u32) | ((b1 as u32) << 8u32) | ((b2 as u32) << 16u32) | ((b3 as u32) << 24u32))
        == v) by (bit_vector)
        requires
            b0 == (v & 0xff) as u8,
            b1 == ((v >> 8u32) & 0xff) as u8,
            b2 == ((v >> 16u32) & 0xff) as u8,
            b3 == ((v >> 24u32) & 0xff) as u8,
    ;
}

pub proof fn lemma_le32_canonical(s: Seq<u8>)
    requires
        s.len() == 4,
    ensures
        le32(from_le32(s)) == s,
{
    let b0 = s[0];
    let b1 = s[1];
    let b2 = s[2];
    let b3 = s[3];
    let x = from_le32(s);
    assert((x & 0xff) as u8 == b0 && ((x >> 8u32) & 0xff) as u8 == b1 && ((x >> 16u32) & 0xff) as u8
        == b2 && ((x >> 24u32) & 0xff) as u8 == b3) by (bit_vector)
        requires
            x == (b0 as u32) | ((b1 as u32) << 8u32) | ((b2 as u32) << 16u32) | ((b3 as u32)
                << 24u32),
    ;
    assert(le32(x) =~= s);
}

/// At most one field starts at a given offset.
pub proof fn lemma_field_at_unique(buf: Seq<u8>, pos: int, f: Seq<u8>, g: Seq<u8>)
    requires
        field_at(buf, pos, f),
        field_at(buf, pos, g),
    ensures
        f == g,
{
    lemma_le32_round_trip(f.len() as u32);
    lemma_le32_round_trip(g.len() as u32);
    assert(buf.subrange(pos, pos + 4) == enc_field(f).subrange(0, 4));
    assert(buf.subrange(pos, pos + 4) == enc_field(g).subrange(0, 4));
    assert(enc_field(f).subrange(0, 4) =~= le32(f.len() as u32));
    assert(enc_field(g).subrange(0, 4) =~= le32(g.len() as u32));
    assert(f.len() == g.len());
    assert(f =~= enc_field(f).subrange(4, 4 + f.len() as int));
    assert(g =~= enc_field(g).subrange(4, 4 + g.len() as int));
}

/// Appends the four little-endian bytes of `v`.
pub fn write_u32(out: &mut Vec<u8>, v: u32)
    ensures
        final(out)@ == old(out)@ + le32(v),
{
    out.push((v & 0xff) as u8);
    out.push(((v >> 8u32) & 0xff) as u8);
    out.push(((v >> 16u32) & 0xff) as u8);
    out.push(((v >> 24u32) & 0xff) as u8);
    assert(final(out)@ =~= old(out)@ + le32(v));
}

/// Appends the bytes of `b` unchanged.
pub fn write_bytes(out: &mut Vec<u8>, b: &[u8])
    ensures
        final(out)@ == old(out)@ + b@,
{
    let mut i: usize = 0;
    while i < b.len()
        invariant
            i <= b@.len(),
            out@ == old(out)@ + b@.subrange(0, i as int),
        decreases b.len() - i,
    {
        out.push(b[i]);
        i = i + 1;
        assert(out@ =~= old(out)@ + b@.subrange(0, i as int));
    }
    assert(b@.subrange(0, i as int) =~= b@);
}

/// Appends `f` preceded by its length.
pub fn write_field(out: &mut Vec<u8>, f: &[u8])
    requires
        f@.len() <= u32::MAX,
    ensures
        final(out)@ == old(out)@ + enc_field(f@),
{
    write_u32(out, f.len() as u32);
    write_bytes(out, f);
    assert(final(out)@ =~= old(out)@ + enc_field(f@));
}

/// Reads the count stored at `pos`; `None` when fewer than four bytes remain.
pub fn read_u32(buf: &[u8], pos: usize) -> (r: Option<u32>)
    ensures
        r is Some <==> pos + 4 <= buf@.len(),
        r matches Some(v) ==> le32(v) == buf@.subrange(pos as int, pos + 4),
{
    if pos > buf.len() || buf.len() - pos < 4 {
        return None;
    }
    let v = (buf[pos] as u32) | ((buf[pos + 1] as u32) << 8u32) | ((buf[pos + 2] as u32) << 16u32)
        | ((buf[pos + 3] as u32) << 24u32);
    proof {
        let s = buf@.subrange(pos as int, pos + 4);
        assert(v == from_le32(s));
        lemma_le32_canonical(s);
    }
    Some(v)
}

/// Copies the `n` bytes that start at `pos`; `None` when fewer remain.
pub fn read_bytes(buf: &[u8], pos: usize, n: usize) -> (r: Option<Vec<u8>>)
    ensures
        r is Some <==> pos + n <= buf@.len(),
        r matches Some(b) ==> b@ == buf@.subrange(pos as int, pos + n),
{
    if pos > buf.len() || buf.len() - pos < n {
        return None;
    }
    let mut out: Vec<u8> = Vec::new();
    let mut i: usize = 0;
    while i < n
        invariant
            i <= n,
            pos + n <= buf.len(),
            out@ == buf@.subrange(pos as int, pos + i),
        decreases n - i,
    {
        out.push(buf[pos + i]);
        i = i + 1;
        assert(out@ =~= buf@.subrange(pos as int, pos + i));
    }
    Some(out)
}

/// Reads the length-prefixed field at `pos` and the offset just past it;
/// `None` exactly when no field fits there.
pub fn read_field(buf: &[u8], pos: usize) -> (r: Option<(Vec<u8>, usize)>)
    ensures
        match r {
            Some((f, next)) => {
                &&& field_at(buf@, pos as int, f@)
                &&& next == pos + 4 + f@.len()
            },
            None => forall|f: Seq<u8>| !field_at(buf@, pos as int, f),
        },
{
    let len = match read_u32(buf, pos) {
        Some(len) => len,
        None => {
            assert forall|f: Seq<u8>| !field_at(buf@, pos as int, f) by {}
            return None;
        },
    };
    proof {
        lemma_le32_round_trip(len);
        assert(pos + 4 <= buf.len());
    }
    let start = pos + 4;
    match read_bytes(buf, start, len as usize) {
        Some(f) => {
            proof {
                assert(buf@.subrange(pos as int, start + f@.len()) =~= enc_field(f@));
            }
            assert(start + f@.len() <= buf.len());
            let next = start + f.len();
            Some((f, next))
        },
        None => {
            assert forall|f: Seq<u8>| !field_at(buf@, pos as int, f) by {
                if field_at(buf@, pos as int, f) {
                    lemma_le32_round_trip(f.len() as u32);
                    assert(buf@.subrange(pos as int, pos + 4) =~= enc_field(f).subrange(0, 4));
                    assert(enc_field(f).subrange(0, 4) =~= le32(f.len() as u32));
                }
            }
            None
        },
    }
}

} // verus!
