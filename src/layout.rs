//! The stored form of a node as a mathematical value, and facts about it.
//!
//! Layout: a type tag (1 = internal, 2 = leaf), the node's own address, its
//! parent's address (all zero for the root), then the body. An internal body
//! is the child count, the child addresses, the key count and the
//! length-prefixed separator keys; a leaf body is the record count and, per
//! record, a length-prefixed key and a length-prefixed value. Counts and
//! length prefixes are 32-bit little-endian.
use vstd::prelude::*;

use crate::codec::{enc_field, le32};
use crate::db_key::{zero_key, LEN_DB_KEY};

verus! {

/// Type tag of the invalid node, which is never stored.
pub const TAG_NONE: u8 = 0;

/// Type tag of an internal node.
pub const TAG_INTERNAL: u8 = 1;

/// Type tag of a leaf.
pub const TAG_LEAF: u8 = 2;

/// Offsets of the header fields and of the body.
pub const OFFSET_NODE_TYPE: usize = 0;

pub const OFFSET_DB_KEY: usize = OFFSET_NODE_TYPE + 1;

pub const OFFSET_PARENT_DB_KEY: usize = OFFSET_DB_KEY + LEN_DB_KEY;

pub const OFFSET_NODE_DATA: usize = OFFSET_PARENT_DB_KEY + LEN_DB_KEY;

/// The body of a node, as sequences of byte strings.
pub enum BodyModel {
    Internal { children: Seq<Seq<u8>>, keys: Seq<Seq<u8>> },
    Leaf { records: Seq<(Seq<u8>, Seq<u8>)> },
}

/// A node as a mathematical value.
pub struct NodeModel {
    pub self_key: Seq<u8>,
    pub parent_key: Seq<u8>,
    pub body: BodyModel,
}

/// A count or length that its 32-bit prefix can hold.
pub open spec fn fits_u32(n: nat) -> bool {
    n <= u32::MAX
}

/// Byte strings, each preceded by its length, one after another.
pub open spec fn enc_fields(fs: Seq<Seq<u8>>) -> Seq<u8> {
    fs.map_values(|f: Seq<u8>| enc_field(f)).flatten()
}

/// A record: its length-prefixed key, then its length-prefixed value.
pub open spec fn enc_record(r: (Seq<u8>, Seq<u8>)) -> Seq<u8> {
    enc_field(r.0) + enc_field(r.1)
}

/// Records one after another.
pub open spec fn enc_records(rs: Seq<(Seq<u8>, Seq<u8>)>) -> Seq<u8> {
    rs.map_values(|r: (Seq<u8>, Seq<u8>)| enc_record(r)).flatten()
}

/// Every length fits its prefix.
pub open spec fn fields_valid(fs: Seq<Seq<u8>>) -> bool {
    forall|i: int| 0 <= i < fs.len() ==> fits_u32(#[trigger] fs[i].len())
}

/// Every key and value length fits its prefix.
pub open spec fn records_valid(rs: Seq<(Seq<u8>, Seq<u8>)>) -> bool {
    forall|i: int|
        0 <= i < rs.len() ==> fits_u32(#[trigger] rs[i].0.len()) && fits_u32(rs[i].1.len())
}

/// Every address has the address length.
pub open spec fn addrs_valid(cs: Seq<Seq<u8>>) -> bool {
    forall|i: int| 0 <= i < cs.len() ==> #[trigger] cs[i].len() == LEN_DB_KEY
}

impl BodyModel {
    /// Counts agree (one key fewer than children) and every count and length fits its prefix.
    pub open spec fn valid(self) -> bool {
        match self {
            BodyModel::Internal { children, keys } => {
                &&& keys.len() + 1 == children.len()
                &&& fits_u32(children.len())
                &&& addrs_valid(children)
                &&& fields_valid(keys)
            },
            BodyModel::Leaf { records } => fits_u32(records.len()) && records_valid(records),
        }
    }

    pub open spec fn tag(self) -> u8 {
        match self {
            BodyModel::Internal { .. } => TAG_INTERNAL,
            BodyModel::Leaf { .. } => TAG_LEAF,
        }
    }

    pub open spec fn encode(self) -> Seq<u8> {
        match self {
            BodyModel::Internal { children, keys } => le32(children.len() as u32)
                + children.flatten() + le32(keys.len() as u32) + enc_fields(keys),
            BodyModel::Leaf { records } => le32(records.len() as u32) + enc_records(records),
        }
    }
}

impl NodeModel {
    pub open spec fn valid(self) -> bool {
        &&& self.self_key.len() == LEN_DB_KEY
        &&& self.parent_key.len() == LEN_DB_KEY
        &&& self.body.valid()
    }

    pub open spec fn header(self) -> Seq<u8> {
        seq![self.body.tag()] + self.self_key + self.parent_key
    }

    /// The stored form of the node.
    pub open spec fn encode(self) -> Seq<u8> {
        self.header() + self.body.encode()
    }

    pub open spec fn is_root(self) -> bool {
        self.parent_key == zero_key()
    }
}

pub(crate) proof fn lemma_flatten_concat(a: Seq<Seq<u8>>, b: Seq<Seq<u8>>)
    ensures
        (a + b).flatten() == a.flatten() + b.flatten(),
    decreases a.len(),
{
    if a.len() == 0 {
        assert(a + b =~= b);
        assert(a.flatten() + b.flatten() =~= b.flatten());
    } else {
        lemma_flatten_concat(a.drop_first(), b);
        assert((a + b).drop_first() =~= a.drop_first() + b);
        assert((a + b).first() == a.first());
        assert((a + b).flatten() =~= a.first() + (a.drop_first() + b).flatten());
    }
}

/// The flattened sequence, cut around its part `i`.
pub(crate) proof fn lemma_flatten_split(x: Seq<Seq<u8>>, i: int)
    requires
        0 <= i < x.len(),
    ensures
        x.flatten() == x.take(i).flatten() + x[i] + x.skip(i + 1).flatten(),
{
    let rest = x.skip(i);
    assert(x =~= x.take(i) + rest);
    lemma_flatten_concat(x.take(i), rest);
    assert(rest.drop_first() =~= x.skip(i + 1));
    assert(rest.first() == x[i]);
}

/// A sub-block of a block found at `pos` is found at its own offset.
pub(crate) proof fn lemma_sub_block(buf: Seq<u8>, pos: int, a: Seq<u8>, b: Seq<u8>, c: Seq<u8>)
    requires
        0 <= pos,
        pos + (a + b + c).len() <= buf.len(),
        buf.subrange(pos, pos + (a + b + c).len()) == a + b + c,
    ensures
        buf.subrange(pos + a.len(), pos + a.len() + b.len()) == b,
{
    assert(buf.subrange(pos + a.len(), pos + a.len() + b.len()) =~= buf.subrange(
        pos,
        pos + (a + b + c).len(),
    ).subrange(a.len() as int, (a.len() + b.len()) as int));
    assert((a + b + c).subrange(a.len() as int, (a.len() + b.len()) as int) =~= b);
}

/// Two adjacent blocks form one.
pub(crate) proof fn lemma_join_blocks(buf: Seq<u8>, pos: int, a: Seq<u8>, b: Seq<u8>)
    requires
        0 <= pos,
        pos + a.len() + b.len() <= buf.len(),
        buf.subrange(pos, pos + a.len()) == a,
        buf.subrange(pos + a.len(), pos + a.len() + b.len()) == b,
    ensures
        buf.subrange(pos, pos + (a + b).len()) == a + b,
{
    assert(buf.subrange(pos, pos + (a + b).len()) =~= a + b);
}

pub(crate) proof fn lemma_enc_fields_push(fs: Seq<Seq<u8>>, f: Seq<u8>)
    ensures
        enc_fields(fs.push(f)) == enc_fields(fs) + enc_field(f),
{
    broadcast use Seq::lemma_flatten_push;

    assert(fs.push(f).map_values(|g: Seq<u8>| enc_field(g)) =~= fs.map_values(
        |g: Seq<u8>| enc_field(g),
    ).push(enc_field(f)));
}

pub(crate) proof fn lemma_enc_fields_split(fs: Seq<Seq<u8>>, i: int)
    requires
        0 <= i < fs.len(),
    ensures
        enc_fields(fs) == enc_fields(fs.take(i)) + enc_field(fs[i]) + enc_fields(fs.skip(i + 1)),
{
    let x = fs.map_values(|g: Seq<u8>| enc_field(g));
    lemma_flatten_split(x, i);
    assert(x.take(i) =~= fs.take(i).map_values(|g: Seq<u8>| enc_field(g)));
    assert(x.skip(i + 1) =~= fs.skip(i + 1).map_values(|g: Seq<u8>| enc_field(g)));
}

/// `fs` is encoded, field after field, at offset `pos` of `buf`.
pub open spec fn fields_at(buf: Seq<u8>, pos: int, fs: Seq<Seq<u8>>) -> bool {
    &&& fields_valid(fs)
    &&& 0 <= pos
    &&& pos + enc_fields(fs).len() <= buf.len()
    &&& buf.subrange(pos, pos + enc_fields(fs).len()) == enc_fields(fs)
}

pub(crate) proof fn lemma_addrs_len(cs: Seq<Seq<u8>>)
    requires
        addrs_valid(cs),
    ensures
        cs.flatten().len() == LEN_DB_KEY * cs.len(),
    decreases cs.len(),
{
    if cs.len() > 0 {
        assert(addrs_valid(cs.drop_first()));
        lemma_addrs_len(cs.drop_first());
        assert(cs[0].len() == LEN_DB_KEY);
    }
}

/// `cs` is laid out, address after address, at offset `pos` of `buf`.
pub open spec fn addrs_at(buf: Seq<u8>, pos: int, cs: Seq<Seq<u8>>) -> bool {
    &&& addrs_valid(cs)
    &&& 0 <= pos
    &&& pos + cs.flatten().len() <= buf.len()
    &&& buf.subrange(pos, pos + cs.flatten().len()) == cs.flatten()
}

pub(crate) proof fn lemma_enc_records_push(rs: Seq<(Seq<u8>, Seq<u8>)>, r: (Seq<u8>, Seq<u8>))
    ensures
        enc_records(rs.push(r)) == enc_records(rs) + enc_record(r),
{
    broadcast use Seq::lemma_flatten_push;

    assert(rs.push(r).map_values(|g: (Seq<u8>, Seq<u8>)| enc_record(g)) =~= rs.map_values(
        |g: (Seq<u8>, Seq<u8>)| enc_record(g),
    ).push(enc_record(r)));
}

pub(crate) proof fn lemma_enc_records_split(rs: Seq<(Seq<u8>, Seq<u8>)>, i: int)
    requires
        0 <= i < rs.len(),
    ensures
        enc_records(rs) == enc_records(rs.take(i)) + enc_record(rs[i]) + enc_records(
            rs.skip(i + 1),
        ),
{
    let x = rs.map_values(|g: (Seq<u8>, Seq<u8>)| enc_record(g));
    lemma_flatten_split(x, i);
    assert(x.take(i) =~= rs.take(i).map_values(|g: (Seq<u8>, Seq<u8>)| enc_record(g)));
    assert(x.skip(i + 1) =~= rs.skip(i + 1).map_values(|g: (Seq<u8>, Seq<u8>)| enc_record(g)));
}

/// `rs` is encoded, record after record, at offset `pos` of `buf`.
pub open spec fn records_at(buf: Seq<u8>, pos: int, rs: Seq<(Seq<u8>, Seq<u8>)>) -> bool {
    &&& records_valid(rs)
    &&& 0 <= pos
    &&& pos + enc_records(rs).len() <= buf.len()
    &&& buf.subrange(pos, pos + enc_records(rs).len()) == enc_records(rs)
}

/// The two fields of record `i` of a candidate `rs` at `pos` sit at `p` and just after.
pub(crate) proof fn lemma_record_fields(buf: Seq<u8>, pos: int, p: int, rs: Seq<(Seq<u8>, Seq<u8>)>, i: int)
    requires
        0 <= i < rs.len(),
        records_at(buf, pos, rs),
        p == pos + enc_records(rs.take(i)).len(),
    ensures
        crate::codec::field_at(buf, p, rs[i].0),
        crate::codec::field_at(buf, p + 4 + rs[i].0.len(), rs[i].1),
{
    lemma_enc_records_split(rs, i);
    let a = enc_records(rs.take(i));
    let k = enc_field(rs[i].0);
    let v = enc_field(rs[i].1);
    let z = enc_records(rs.skip(i + 1));
    assert(a + enc_record(rs[i]) + z =~= a + k + (v + z));
    lemma_sub_block(buf, pos, a, k, v + z);
    assert(a + enc_record(rs[i]) + z =~= (a + k) + v + z);
    lemma_sub_block(buf, pos, a + k, v, z);
    assert(fits_u32(rs[i].0.len()));
}

/// Where the parts of a valid node sit in its encoding.
pub(crate) proof fn lemma_header_parts(buf: Seq<u8>, m: NodeModel)
    requires
        m.valid(),
        m.encode() == buf,
    ensures
        buf.len() >= OFFSET_NODE_DATA + 4,
        buf[0] == m.body.tag(),
        buf.subrange(OFFSET_DB_KEY as int, OFFSET_PARENT_DB_KEY as int) == m.self_key,
        buf.subrange(OFFSET_PARENT_DB_KEY as int, OFFSET_NODE_DATA as int) == m.parent_key,
        buf.subrange(OFFSET_NODE_DATA as int, buf.len() as int) == m.body.encode(),
{
    assert(buf.subrange(OFFSET_DB_KEY as int, OFFSET_PARENT_DB_KEY as int) =~= m.self_key);
    assert(buf.subrange(OFFSET_PARENT_DB_KEY as int, OFFSET_NODE_DATA as int) =~= m.parent_key);
    assert(buf.subrange(OFFSET_NODE_DATA as int, buf.len() as int) =~= m.body.encode());
}

pub(crate) proof fn lemma_internal_parts(buf: Seq<u8>, m: NodeModel)
    requires
        m.valid(),
        m.encode() == buf,
        m.body is Internal,
    ensures
        ({
            let children = m.body->children;
            let keys = m.body->keys;
            let kpos = OFFSET_NODE_DATA + 4 + children.flatten().len();
            &&& buf.subrange(OFFSET_NODE_DATA as int, OFFSET_NODE_DATA + 4) == le32(children.len() as u32)
            &&& addrs_at(buf, OFFSET_NODE_DATA + 4, children)
            &&& kpos + 4 <= buf.len()
            &&& buf.subrange(kpos, kpos + 4) == le32(keys.len() as u32)
            &&& fields_at(buf, kpos + 4, keys)
            &&& kpos + 4 + enc_fields(keys).len() == buf.len()
        }),
{
    let children = m.body->children;
    let keys = m.body->keys;
    let h = m.header() + le32(children.len() as u32);
    let f = children.flatten();
    let t = le32(keys.len() as u32) + enc_fields(keys);
    assert(buf =~= h + f + t);
    assert(buf.subrange(0, buf.len() as int) =~= buf);
    lemma_sub_block(buf, 0, h, f, t);
    assert(buf.subrange(OFFSET_NODE_DATA as int, OFFSET_NODE_DATA + 4) =~= le32(children.len() as u32));
    assert(buf =~= (h + f) + le32(keys.len() as u32) + enc_fields(keys));
    lemma_sub_block(buf, 0, h + f, le32(keys.len() as u32), enc_fields(keys));
    assert(buf =~= (h + f + le32(keys.len() as u32)) + enc_fields(keys) + Seq::<u8>::empty());
    lemma_sub_block(buf, 0, h + f + le32(keys.len() as u32), enc_fields(keys), Seq::<u8>::empty());
}

pub(crate) proof fn lemma_leaf_parts(buf: Seq<u8>, m: NodeModel)
    requires
        m.valid(),
        m.encode() == buf,
        m.body is Leaf,
    ensures
        ({
            let records = m.body->records;
            &&& buf.subrange(OFFSET_NODE_DATA as int, OFFSET_NODE_DATA + 4) == le32(records.len() as u32)
            &&& records_at(buf, OFFSET_NODE_DATA + 4, records)
            &&& OFFSET_NODE_DATA + 4 + enc_records(records).len() == buf.len()
        }),
{
    let records = m.body->records;
    let h = m.header() + le32(records.len() as u32);
    assert(buf =~= h + enc_records(records) + Seq::<u8>::empty());
    assert(buf.subrange(0, buf.len() as int) =~= buf);
    lemma_sub_block(buf, 0, h, enc_records(records), Seq::<u8>::empty());
    assert(buf.subrange(OFFSET_NODE_DATA as int, OFFSET_NODE_DATA + 4) =~= le32(records.len() as u32));
}

/// Equal encodings of counts are equal counts.
pub(crate) proof fn lemma_count_eq(c: u32, n: nat)
    requires
        n <= u32::MAX,
        le32(c) == le32(n as u32),
    ensures
        c == n,
{
    crate::codec::lemma_le32_round_trip(c);
    crate::codec::lemma_le32_round_trip(n as u32);
}

/// A valid node that encodes to `buf`, where `buf` carries the internal tag
/// and reads `count` as its child count, is internal with `count` children,
/// and its parts sit where its encoding puts them.
pub(crate) proof fn lemma_internal_candidate(buf: Seq<u8>, m: NodeModel, count: u32)
    requires
        m.valid(),
        m.encode() == buf,
        buf.len() >= OFFSET_NODE_DATA + 4,
        buf[0] == TAG_INTERNAL,
        le32(count) == buf.subrange(OFFSET_NODE_DATA as int, OFFSET_NODE_DATA + 4),
    ensures
        m.body is Internal,
        buf.subrange(OFFSET_DB_KEY as int, OFFSET_PARENT_DB_KEY as int) == m.self_key,
        buf.subrange(OFFSET_PARENT_DB_KEY as int, OFFSET_NODE_DATA as int) == m.parent_key,
        ({
            let children = m.body->children;
            let keys = m.body->keys;
            let kpos = OFFSET_NODE_DATA + 4 + children.flatten().len();
            &&& count == children.len()
            &&& addrs_at(buf, OFFSET_NODE_DATA + 4, children)
            &&& kpos + 4 <= buf.len()
            &&& forall|kc: u32| #[trigger] le32(kc) == buf.subrange(kpos, kpos + 4) ==> kc == keys.len()
            &&& fields_at(buf, kpos + 4, keys)
            &&& kpos + 4 + enc_fields(keys).len() == buf.len()
        }),
{
    lemma_header_parts(buf, m);
    lemma_internal_parts(buf, m);
    lemma_count_eq(count, m.body->children.len());
    assert forall|kc: u32| #[trigger] le32(kc) == buf.subrange(
        OFFSET_NODE_DATA + 4 + m.body->children.flatten().len(),
        OFFSET_NODE_DATA + 4 + m.body->children.flatten().len() + 4,
    ) implies kc == m.body->keys.len() by {
        lemma_count_eq(kc, m.body->keys.len());
    }
}

/// A valid node that encodes to `buf`, where `buf` carries the leaf tag and
/// reads `count` as its record count, is a leaf with `count` records, and
/// its records sit where its encoding puts them.
pub(crate) proof fn lemma_leaf_candidate(buf: Seq<u8>, m: NodeModel, count: u32)
    requires
        m.valid(),
        m.encode() == buf,
        buf.len() >= OFFSET_NODE_DATA + 4,
        buf[0] == TAG_LEAF,
        le32(count) == buf.subrange(OFFSET_NODE_DATA as int, OFFSET_NODE_DATA + 4),
    ensures
        m.body is Leaf,
        buf.subrange(OFFSET_DB_KEY as int, OFFSET_PARENT_DB_KEY as int) == m.self_key,
        buf.subrange(OFFSET_PARENT_DB_KEY as int, OFFSET_NODE_DATA as int) == m.parent_key,
        count == m.body->records.len(),
        records_at(buf, OFFSET_NODE_DATA + 4, m.body->records),
        OFFSET_NODE_DATA + 4 + enc_records(m.body->records).len() == buf.len(),
{
    lemma_header_parts(buf, m);
    lemma_leaf_parts(buf, m);
    lemma_count_eq(count, m.body->records.len());
}

pub(crate) proof fn lemma_fields_at_unique(buf: Seq<u8>, pos: int, fs: Seq<Seq<u8>>, gs: Seq<Seq<u8>>)
    requires
        fields_at(buf, pos, fs),
        fields_at(buf, pos, gs),
        fs.len() == gs.len(),
    ensures
        fs == gs,
    decreases fs.len(),
{
    if fs.len() == 0 {
        assert(fs =~= gs);
    } else {
        lemma_enc_fields_split(fs, 0);
        lemma_enc_fields_split(gs, 0);
        assert(enc_fields(fs.take(0)) =~= Seq::<u8>::empty());
        assert(enc_fields(gs.take(0)) =~= Seq::<u8>::empty());
        let e = Seq::<u8>::empty();
        assert(enc_fields(fs) =~= e + enc_field(fs[0]) + enc_fields(fs.skip(1)));
        assert(enc_fields(gs) =~= e + enc_field(gs[0]) + enc_fields(gs.skip(1)));
        lemma_sub_block(buf, pos, e, enc_field(fs[0]), enc_fields(fs.skip(1)));
        lemma_sub_block(buf, pos, e, enc_field(gs[0]), enc_fields(gs.skip(1)));
        assert(fits_u32(fs[0].len()) && fits_u32(gs[0].len()));
        crate::codec::lemma_field_at_unique(buf, pos, fs[0], gs[0]);
        let q = pos + enc_field(fs[0]).len();
        assert(enc_fields(fs) =~= enc_field(fs[0]) + enc_fields(fs.skip(1)) + e);
        assert(enc_fields(gs) =~= enc_field(gs[0]) + enc_fields(gs.skip(1)) + e);
        lemma_sub_block(buf, pos, enc_field(fs[0]), enc_fields(fs.skip(1)), e);
        lemma_sub_block(buf, pos, enc_field(gs[0]), enc_fields(gs.skip(1)), e);
        assert(fields_valid(fs.skip(1)));
        assert(fields_valid(gs.skip(1)));
        lemma_fields_at_unique(buf, q, fs.skip(1), gs.skip(1));
        assert(fs =~= seq![fs[0]] + fs.skip(1));
        assert(gs =~= seq![gs[0]] + gs.skip(1));
    }
}

pub(crate) proof fn lemma_addrs_at_unique(buf: Seq<u8>, pos: int, cs: Seq<Seq<u8>>, ds: Seq<Seq<u8>>)
    requires
        addrs_at(buf, pos, cs),
        addrs_at(buf, pos, ds),
        cs.len() == ds.len(),
    ensures
        cs == ds,
{
    lemma_addrs_len(cs);
    lemma_addrs_len(ds);
    assert forall|i: int| 0 <= i < cs.len() implies cs[i] == ds[i] by {
        lemma_flatten_split(cs, i);
        lemma_flatten_split(ds, i);
        lemma_addrs_len(cs.take(i));
        lemma_addrs_len(ds.take(i));
        lemma_sub_block(buf, pos, cs.take(i).flatten(), cs[i], cs.skip(i + 1).flatten());
        lemma_sub_block(buf, pos, ds.take(i).flatten(), ds[i], ds.skip(i + 1).flatten());
    }
    assert(cs =~= ds);
}

pub(crate) proof fn lemma_records_at_unique(
    buf: Seq<u8>,
    pos: int,
    rs: Seq<(Seq<u8>, Seq<u8>)>,
    qs: Seq<(Seq<u8>, Seq<u8>)>,
)
    requires
        records_at(buf, pos, rs),
        records_at(buf, pos, qs),
        rs.len() == qs.len(),
    ensures
        rs == qs,
    decreases rs.len(),
{
    if rs.len() == 0 {
        assert(rs =~= qs);
    } else {
        let e = Seq::<u8>::empty();
        assert(enc_records(rs.take(0)) =~= e);
        assert(enc_records(qs.take(0)) =~= e);
        lemma_record_fields(buf, pos, pos, rs, 0);
        lemma_record_fields(buf, pos, pos, qs, 0);
        crate::codec::lemma_field_at_unique(buf, pos, rs[0].0, qs[0].0);
        crate::codec::lemma_field_at_unique(buf, pos + 4 + rs[0].0.len(), rs[0].1, qs[0].1);
        lemma_enc_records_split(rs, 0);
        lemma_enc_records_split(qs, 0);
        assert(enc_records(rs) =~= enc_record(rs[0]) + enc_records(rs.skip(1)) + e);
        assert(enc_records(qs) =~= enc_record(qs[0]) + enc_records(qs.skip(1)) + e);
        lemma_sub_block(buf, pos, enc_record(rs[0]), enc_records(rs.skip(1)), e);
        lemma_sub_block(buf, pos, enc_record(qs[0]), enc_records(qs.skip(1)), e);
        assert(records_valid(rs.skip(1)));
        assert(records_valid(qs.skip(1)));
        lemma_records_at_unique(buf, pos + enc_record(rs[0]).len(), rs.skip(1), qs.skip(1));
        assert(rs =~= seq![rs[0]] + rs.skip(1));
        assert(qs =~= seq![qs[0]] + qs.skip(1));
    }
}

/// Decoding gives back the node that was encoded: two valid nodes with the
/// same stored form are the same node. So the node that `decode` returns for
/// the bytes of `n.encode()`, which encodes to those bytes, is `n`.
pub proof fn lemma_round_trip(m1: NodeModel, m2: NodeModel)
    requires
        m1.valid(),
        m2.valid(),
        m1.encode() == m2.encode(),
    ensures
        m1 == m2,
{
    let buf = m1.encode();
    lemma_header_parts(buf, m1);
    lemma_header_parts(buf, m2);
    match m1.body {
        BodyModel::Internal { children, keys } => {
            lemma_internal_parts(buf, m1);
            lemma_internal_parts(buf, m2);
            let c2 = m2.body->children;
            let k2 = m2.body->keys;
            lemma_count_eq(children.len() as u32, c2.len());
            lemma_addrs_at_unique(buf, OFFSET_NODE_DATA + 4, children, c2);
            lemma_count_eq(keys.len() as u32, k2.len());
            lemma_fields_at_unique(buf, OFFSET_NODE_DATA + 4 + children.flatten().len() + 4, keys, k2);
        },
        BodyModel::Leaf { records } => {
            lemma_leaf_parts(buf, m1);
            lemma_leaf_parts(buf, m2);
            let r2 = m2.body->records;
            lemma_count_eq(records.len() as u32, r2.len());
            lemma_records_at_unique(buf, OFFSET_NODE_DATA + 4, records, r2);
        },
    }
}

/// A stored node is the root exactly when its parent field is all zero.
pub proof fn lemma_root_identity(m: NodeModel)
    requires
        m.valid(),
    ensures
        m.is_root() <==> m.encode().subrange(OFFSET_PARENT_DB_KEY as int, OFFSET_NODE_DATA as int)
            == zero_key(),
{
    lemma_header_parts(m.encode(), m);
}

/// Bytes too short to hold a header, or whose type tag is neither internal
/// nor leaf, are the encoding of no valid node, so `decode` rejects them
/// with `CorruptNode`.
pub proof fn lemma_corruption_detected(bytes: Seq<u8>)
    requires
        bytes.len() < OFFSET_NODE_DATA || (bytes[0] != TAG_INTERNAL && bytes[0] != TAG_LEAF),
    ensures
        forall|m: NodeModel| m.valid() ==> #[trigger] m.encode() != bytes,
{
    assert forall|m: NodeModel| m.valid() implies #[trigger] m.encode() != bytes by {
        if m.encode() == bytes {
            lemma_header_parts(bytes, m);
        }
    }
}



} // verus!
